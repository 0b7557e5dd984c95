//! The profile document: the ordered layer list and its strategy table.

use vstd::prelude::*;

use crate::doc::Doc;
use crate::error::{owned, DomainError};
use crate::identifier::{is_identifier, Identifier};
use crate::strategy::{invalid, invalid_type, table_spec, Row, StrategyTable};
use crate::text::{push_str, same_text};

verus! {

/// A parsed profile document.
#[derive(Debug)]
pub struct Profile {
    /// The ordered, non-empty piece names. Later wins at merge time.
    layers: Vec<Identifier>,
    /// The declared per-key array exceptions, empty when absent.
    array_strategies: StrategyTable,
}

/// The layer names a list declares, or why one is refused.
pub open spec fn layer_list(items: Seq<Doc>, i: int, acc: Seq<Seq<char>>) -> Result<Seq<Seq<char>>, Seq<char>>
    decreases items.len() - i,
{
    if i < 0 || i >= items.len() {
        Ok(acc)
    } else {
        match items[i] {
            Doc::Text(t) => if is_identifier(t@) {
                layer_list(items, i + 1, acc.push(t@))
            } else {
                Err("invalid identifier: "@ + t@)
            },
            _ => Err(invalid_type(items[i], "a string"@)),
        }
    }
}

/// The layers field's value read as a list of names.
pub open spec fn layers_spec(d: Doc) -> Result<Seq<Seq<char>>, Seq<char>> {
    match d {
        Doc::List(items) => layer_list(items@, 0, Seq::empty()),
        _ => Err(invalid_type(d, "a sequence"@)),
    }
}

/// The fields read so far: the layer names and the strategy rows.
pub type ProfileState = (Option<Seq<Seq<char>>>, Option<Seq<Row>>);

/// Reads a profile's fields in order, refusing unknown and repeated fields.
pub open spec fn profile_fields(fields: Seq<(Doc, Doc)>, i: int, state: ProfileState) -> Result<ProfileState, Seq<char>>
    decreases fields.len() - i,
{
    if i < 0 || i >= fields.len() {
        Ok(state)
    } else {
        let (name, value) = fields[i];
        match name {
            Doc::Text(n) => if n@ == "layers"@ {
                if state.0 is Some {
                    Err("duplicate field `layers`"@)
                } else {
                    match layers_spec(value) {
                        Ok(l) => profile_fields(fields, i + 1, (Some(l), state.1)),
                        Err(m) => Err(m),
                    }
                }
            } else if n@ == "array_strategies"@ {
                if state.1 is Some {
                    Err("duplicate field `array_strategies`"@)
                } else {
                    match table_spec(value) {
                        Ok(rows) => profile_fields(fields, i + 1, (state.0, Some(rows))),
                        Err(m) => Err(m),
                    }
                }
            } else {
                Err("unknown field `"@ + n@ + "`, expected `layers` or `array_strategies`"@)
            },
            _ => Err(invalid_type(name, "a field identifier"@)),
        }
    }
}

/// What a profile document declares: its layers and its strategy rows, or the
/// refusal.
pub open spec fn profile_spec(d: Doc) -> Result<(Seq<Seq<char>>, Seq<Row>), Seq<char>> {
    match d {
        Doc::Mapping(fields) => match profile_fields(fields@, 0, (None, None)) {
            Err(m) => Err(m),
            Ok(state) => if state.0 is None {
                Err("missing field `layers`"@)
            } else if state.0->0.len() == 0 {
                Err("a profile must name at least one layer"@)
            } else {
                Ok((state.0->0, if state.1 is Some { state.1->0 } else { Seq::empty() }))
            },
        },
        _ => Err(invalid_type(d, "struct Profile"@)),
    }
}

/// The views of a list of identifiers.
pub open spec fn id_views(v: Seq<Identifier>) -> Seq<Seq<char>> {
    v.map_values(|i: Identifier| i@)
}

fn read_layers(d: &Doc) -> (r: Result<Vec<Identifier>, DomainError>)
    ensures
        match layers_spec(*d) {
            Ok(l) => r matches Ok(v) && id_views(v@) == l,
            Err(m) => r matches Err(DomainError::Semantic(n)) && n@ == m,
        },
{
    let items = match d {
        Doc::List(items) => items,
        _ => {
            return Err(DomainError::Semantic(invalid(d, "a sequence")));
        },
    };
    let mut out: Vec<Identifier> = Vec::new();
    let mut i: usize = 0;
    proof {
        assert(id_views(out@) =~= Seq::<Seq<char>>::empty());
    }
    while i < items.len()
        invariant
            i <= items@.len(),
            layers_spec(*d) == layer_list(items@, i as int, id_views(out@)),
        decreases items.len() - i,
    {
        match &items[i] {
            Doc::Text(t) => match Identifier::parse(t.as_str()) {
                Ok(id) => {
                    let ghost before = id_views(out@);
                    out.push(id);
                    proof {
                        assert(id_views(out@) =~= before.push(t@));
                    }
                },
                Err(_) => {
                    let mut m = owned("invalid identifier: ");
                    push_str(&mut m, t.as_str());
                    return Err(DomainError::Semantic(m));
                },
            },
            other => {
                return Err(DomainError::Semantic(invalid(other, "a string")));
            },
        }
        i = i + 1;
    }
    Ok(out)
}

impl Profile {
    /// The ordered layer names.
    pub closed spec fn layer_names(&self) -> Seq<Seq<char>> {
        id_views(self.layers@)
    }

    /// The declared strategy rows.
    pub closed spec fn strategy_rows(&self) -> Seq<Row> {
        self.array_strategies.rows()
    }

    /// Reads a profile document, refusing unknown fields, a missing or empty
    /// layer list, a layer outside the identifier grammar and an unusable
    /// strategy table.
    #[verifier::loop_isolation(false)]
    pub fn from_document(d: &Doc) -> (r: Result<Profile, DomainError>)
        ensures
            match profile_spec(*d) {
                Ok(p) => r matches Ok(q) && q.layer_names() == p.0 && q.strategy_rows().to_set() == p.1.to_set(),
                Err(m) => r matches Err(DomainError::Semantic(n)) && n@ == m,
            },
    {
        let fields = match d {
            Doc::Mapping(fields) => fields,
            _ => {
                return Err(DomainError::Semantic(invalid(d, "struct Profile")));
            },
        };
        let mut layers: Option<Vec<Identifier>> = None;
        let mut table: Option<StrategyTable> = None;
        let ghost mut declared: Option<Seq<Row>> = None;
        let mut i: usize = 0;
        while i < fields.len()
            invariant
                i <= fields@.len(),
                profile_fields(fields@, 0, (None, None)) == profile_fields(fields@, i as int, (
                    opt_layers(layers),
                    declared,
                )),
                table is Some <==> declared is Some,
                table matches Some(t) ==> t.rows().to_set() == declared->0.to_set(),
            decreases fields.len() - i,
        {
            let (name, value) = (&fields[i].0, &fields[i].1);
            proof {
                assert(fields@[i as int] == (*name, *value));
            }
            match name {
                Doc::Text(n) => {
                    if same_text(n.as_str(), "layers") {
                        if layers.is_some() {
                            return Err(DomainError::Semantic(owned("duplicate field `layers`")));
                        }
                        match read_layers(value) {
                            Ok(v) => {
                                layers = Some(v);
                            },
                            Err(e) => {
                                return Err(e);
                            },
                        }
                    } else if same_text(n.as_str(), "array_strategies") {
                        if table.is_some() {
                            return Err(DomainError::Semantic(owned("duplicate field `array_strategies`")));
                        }
                        match StrategyTable::from_document(value) {
                            Ok(t) => {
                                proof {
                                    declared = Some(table_spec(*value)->Ok_0);
                                }
                                table = Some(t);
                            },
                            Err(e) => {
                                return Err(e);
                            },
                        }
                    } else {
                        let mut m = owned("unknown field `");
                        push_str(&mut m, n.as_str());
                        push_str(&mut m, "`, expected `layers` or `array_strategies`");
                        return Err(DomainError::Semantic(m));
                    }
                },
                _ => {
                    return Err(DomainError::Semantic(invalid(name, "a field identifier")));
                },
            }
            i = i + 1;
        }
        let layers = match layers {
            Some(v) => v,
            None => {
                return Err(DomainError::Semantic(owned("missing field `layers`")));
            },
        };
        if layers.len() == 0 {
            return Err(DomainError::Semantic(owned("a profile must name at least one layer")));
        }
        let array_strategies = match table {
            Some(t) => t,
            None => {
                let t = StrategyTable::empty();
                proof {
                    assert(t.rows().to_set() =~= Seq::<Row>::empty().to_set());
                }
                t
            },
        };
        Ok(Profile { layers, array_strategies })
    }

    /// Returns the ordered piece names.
    pub fn layers(&self) -> (r: &Vec<Identifier>)
        ensures
            id_views(r@) == self.layer_names(),
    {
        &self.layers
    }

    /// Returns the declared array merge strategies.
    pub fn strategies(&self) -> (r: &StrategyTable)
        ensures
            r.rows() == self.strategy_rows(),
    {
        &self.array_strategies
    }
}

/// The view of the layers read so far.
pub open spec fn opt_layers(o: Option<Vec<Identifier>>) -> Option<Seq<Seq<char>>> {
    match o {
        Some(v) => Some(id_views(v@)),
        None => None,
    }
}

} // verus!
