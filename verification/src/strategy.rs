//! The per-key array merge strategy table a profile declares.
//!
//! Two spellings, one optional field, and four rejections. Everything the
//! grammar refuses is refused here, when the table is read, so the merge never
//! has to ask whether an entry made sense.

use vstd::prelude::*;

use crate::doc::{compare_text, kind_word, lemma_text_order_total, lemma_text_order_transitive, text_less, Doc};
use crate::error::{owned, DomainError};
use crate::pointer::{decode_spec, escape_message, is_canonical, no_slash_message, Pointer};
use crate::text::{chars_of, push_str, same_text};
use crate::witness::opt_text;

verus! {

/// What to do with an array whose location the table names; `replace` is
/// absent because it is what an unlisted array already does.
#[derive(Debug, PartialEq, Eq)]
pub enum ArrayStrategy {
    /// Elements appended in layer order.
    Concat,
    /// Elements matched on a named field and merged; unmatched ones appended.
    MergeByKey { key: String },
}

/// A strategy as `(merges by key, the key)`; concatenation has an empty key.
pub open spec fn strategy_view(s: ArrayStrategy) -> (bool, Seq<char>) {
    match s {
        ArrayStrategy::Concat => (false, Seq::empty()),
        ArrayStrategy::MergeByKey { key } => (true, key@),
    }
}

impl ArrayStrategy {
    /// Returns the spelling a profile writes, which reports also print.
    pub fn spelling(&self) -> (r: &'static str)
        ensures
            r@ == (if strategy_view(*self).0 { "merge-by-key"@ } else { "concat"@ }),
    {
        match self {
            ArrayStrategy::Concat => "concat",
            ArrayStrategy::MergeByKey { .. } => "merge-by-key",
        }
    }

    /// Returns an equal strategy.
    pub fn duplicate(&self) -> (r: ArrayStrategy)
        ensures
            strategy_view(r) == strategy_view(*self),
    {
        match self {
            ArrayStrategy::Concat => ArrayStrategy::Concat,
            ArrayStrategy::MergeByKey { key } => ArrayStrategy::MergeByKey { key: key.clone() },
        }
    }
}

/// One declared row: the pointer text and the strategy.
pub type Row = (Seq<char>, (bool, Seq<char>));

/// Every declared exception, ordered by pointer text.
#[derive(Debug)]
pub struct StrategyTable {
    entries: Vec<(Pointer, ArrayStrategy)>,
}

/// The rows of a list of declarations.
pub open spec fn rows_of(v: Seq<(Pointer, ArrayStrategy)>) -> Seq<Row> {
    v.map_values(|e: (Pointer, ArrayStrategy)| (e.0@, strategy_view(e.1)))
}

/// Whether rows are strictly ascending by pointer text.
pub open spec fn ascending(rows: Seq<Row>) -> bool {
    forall|i: int, j: int| 0 <= i < j < rows.len() ==> text_less(rows[i].0, rows[j].0)
}

impl StrategyTable {
    /// The table is ordered by pointer and names each pointer once.
    #[verifier::type_invariant]
    spec fn ordered(self) -> bool {
        ascending(rows_of(self.entries@))
    }

    /// The declarations, in pointer order.
    pub closed spec fn rows(&self) -> Seq<Row> {
        rows_of(self.entries@)
    }

    /// The table that declares nothing.
    pub fn empty() -> (r: StrategyTable)
        ensures
            r.rows() == Seq::<Row>::empty(),
    {
        let entries: Vec<(Pointer, ArrayStrategy)> = Vec::new();
        proof {
            assert(rows_of(entries@) =~= Seq::<Row>::empty());
        }
        StrategyTable { entries }
    }

    /// The declarations, in pointer order.
    pub fn entries(&self) -> (r: &Vec<(Pointer, ArrayStrategy)>)
        ensures
            rows_of(r@) == self.rows(),
            ascending(self.rows()),
    {
        proof {
            use_type_invariant(self);
        }
        &self.entries
    }

    /// How many pointers the table declares.
    pub fn len(&self) -> (r: usize)
        ensures
            r == self.rows().len(),
    {
        self.entries.len()
    }

    /// Returns the strategy declared for one location, if any.
    pub fn get(&self, pointer: &Pointer) -> (r: Option<&ArrayStrategy>)
        ensures
            match r {
                Some(s) => exists|i: int| 0 <= i < self.rows().len() && self.rows()[i] == (pointer@, strategy_view(*s)),
                None => forall|i: int| 0 <= i < self.rows().len() ==> self.rows()[i].0 != pointer@,
            },
            r matches Some(s) ==> forall|i: int| 0 <= i < self.rows().len() && #[trigger] self.rows()[i].0 == pointer@
                ==> self.rows()[i].1 == strategy_view(*s),
    {
        proof {
            use_type_invariant(self);
        }
        let key = chars_of(pointer.as_str());
        let mut i: usize = 0;
        while i < self.entries.len()
            invariant
                i <= self.entries@.len(),
                key@ == pointer@,
                ascending(self.rows()),
                forall|k: int| 0 <= k < i ==> self.rows()[k].0 != pointer@,
            decreases self.entries.len() - i,
        {
            let here = chars_of(self.entries[i].0.as_str());
            if compare_text(&here, &key) == 0 {
                proof {
                    assert(self.rows()[i as int] == (pointer@, strategy_view(self.entries@[i as int].1)));
                    assert forall|j: int| 0 <= j < self.rows().len() && #[trigger] self.rows()[j].0 == pointer@
                        implies j == i by {
                        crate::doc::lemma_text_order_total(pointer@, pointer@);
                        let ii = i as int;
                        let rows = self.rows();
                        assert(ascending(rows));
                        assert(rows[ii].0 == pointer@);
                        if j < ii {
                            assert(text_less(rows[j].0, rows[ii].0));
                        } else if j > ii {
                            assert(text_less(rows[ii].0, rows[j].0));
                        }
                    }
                }
                return Some(&self.entries[i].1);
            }
            i = i + 1;
        }
        None
    }
}

/// The strategy a row's fields declare for a pointer, or why they declare none.
pub open spec fn into_strategy_spec(strategy: Seq<char>, key: Option<Seq<char>>, pointer: Seq<char>) -> Result<(bool, Seq<char>), Seq<char>> {
    if strategy == "concat"@ {
        if key is Some {
            Err("the strategy for "@ + pointer + " is concat, which takes no key"@)
        } else {
            Ok((false, Seq::empty()))
        }
    } else if strategy == "merge-by-key"@ {
        if key is Some && key->0.len() > 0 {
            Ok((true, key->0))
        } else {
            Err("the strategy for "@ + pointer + " is merge-by-key, which requires one non-empty key"@)
        }
    } else if strategy == "replace"@ {
        Err("the strategy for "@ + pointer
            + " is replace, which is what an unlisted array already does; remove the entry"@)
    } else {
        Err("the strategy for "@ + pointer + " is "@ + strategy + ", which is not concat or merge-by-key"@)
    }
}

/// Applies the rule table to one row.
fn into_strategy(strategy: &str, key: Option<&str>, pointer: &str) -> (r: Result<ArrayStrategy, String>)
    ensures
        match into_strategy_spec(strategy@, match key { Some(k) => Some(k@), None => None }, pointer@) {
            Ok(v) => r matches Ok(s) && strategy_view(s) == v,
            Err(m) => r matches Err(n) && n@ == m,
        },
{
    let mut m = owned("the strategy for ");
    push_str(&mut m, pointer);
    if same_text(strategy, "concat") {
        if key.is_some() {
            push_str(&mut m, " is concat, which takes no key");
            return Err(m);
        }
        Ok(ArrayStrategy::Concat)
    } else if same_text(strategy, "merge-by-key") {
        match key {
            Some(k) => {
                if chars_of(k).len() > 0 {
                    return Ok(ArrayStrategy::MergeByKey { key: owned(k) });
                }
            },
            None => {},
        }
        push_str(&mut m, " is merge-by-key, which requires one non-empty key");
        Err(m)
    } else if same_text(strategy, "replace") {
        push_str(&mut m, " is replace, which is what an unlisted array already does; remove the entry");
        Err(m)
    } else {
        push_str(&mut m, " is ");
        push_str(&mut m, strategy);
        push_str(&mut m, ", which is not concat or merge-by-key");
        Err(m)
    }
}

/// `invalid type: <kind>, expected <what>`.
pub open spec fn invalid_type(d: Doc, what: Seq<char>) -> Seq<char> {
    "invalid type: "@ + kind_word(d) + ", expected "@ + what
}

/// The state of reading one row's fields: the strategy, whether a key field
/// was seen, and the key it carried.
pub type RowState = (Option<Seq<char>>, bool, Option<Seq<char>>);

/// Reads a row's fields in order, refusing unknown and repeated fields.
pub open spec fn row_fields(fields: Seq<(Doc, Doc)>, i: int, state: RowState) -> Result<RowState, Seq<char>>
    decreases fields.len() - i,
{
    if i < 0 || i >= fields.len() {
        Ok(state)
    } else {
        let (name, value) = fields[i];
        match name {
            Doc::Text(n) => if n@ == "strategy"@ {
                if state.0 is Some {
                    Err("duplicate field `strategy`"@)
                } else {
                    match value {
                        Doc::Text(s) => row_fields(fields, i + 1, (Some(s@), state.1, state.2)),
                        _ => Err(invalid_type(value, "a string"@)),
                    }
                }
            } else if n@ == "key"@ {
                if state.1 {
                    Err("duplicate field `key`"@)
                } else {
                    match value {
                        Doc::Text(k) => row_fields(fields, i + 1, (state.0, true, Some(k@))),
                        Doc::Null => row_fields(fields, i + 1, (state.0, true, None)),
                        _ => Err(invalid_type(value, "a string"@)),
                    }
                }
            } else {
                Err("unknown field `"@ + n@ + "`, expected `strategy` or `key`"@)
            },
            _ => Err(invalid_type(name, "a field identifier"@)),
        }
    }
}

/// A row's `(strategy, key)` fields, or why the row is malformed.
pub open spec fn row_spec(d: Doc) -> Result<(Seq<char>, Option<Seq<char>>), Seq<char>> {
    match d {
        Doc::Mapping(fields) => match row_fields(fields@, 0, (None, false, None)) {
            Ok(state) => if state.0 is Some {
                Ok((state.0->0, state.2))
            } else {
                Err("missing field `strategy`"@)
            },
            Err(m) => Err(m),
        },
        _ => Err(invalid_type(d, "struct Entry"@)),
    }
}

/// Why a pointer text is refused, as `Pointer::parse` words it.
pub open spec fn pointer_refusal(t: Seq<char>) -> Seq<char> {
    if t.len() > 0 && t[0] != '/' {
        no_slash_message(t)
    } else {
        escape_message(t, decode_spec(t)->Err_0)
    }
}

/// The keys of some rows.
pub open spec fn row_keys(rows: Seq<Row>) -> Seq<Seq<char>> {
    rows.map_values(|r: Row| r.0)
}

/// Reads a table's entries in document order: the rows they declare, or the
/// first refusal.
pub open spec fn table_rows(entries: Seq<(Doc, Doc)>, i: int, acc: Seq<Row>) -> Result<Seq<Row>, Seq<char>>
    decreases entries.len() - i,
{
    if i < 0 || i >= entries.len() {
        Ok(acc)
    } else {
        let (k, v) = entries[i];
        match k {
            Doc::Text(t) => match row_spec(v) {
                Err(m) => Err(m),
                Ok(row) => if !is_canonical(t@) {
                    Err(pointer_refusal(t@))
                } else {
                    match into_strategy_spec(row.0, row.1, t@) {
                        Err(m) => Err(m),
                        Ok(s) => if row_keys(acc).contains(t@) {
                            Err("the JSON pointer "@ + t@ + " is declared more than once"@)
                        } else {
                            table_rows(entries, i + 1, acc.push((t@, s)))
                        },
                    }
                },
            },
            _ => Err(invalid_type(k, "a string"@)),
        }
    }
}

/// What a strategy table document declares.
pub open spec fn table_spec(d: Doc) -> Result<Seq<Row>, Seq<char>> {
    match d {
        Doc::Mapping(entries) => table_rows(entries@, 0, Seq::empty()),
        _ => Err(invalid_type(d, "a map of JSON pointers to array merge strategies"@)),
    }
}

pub(crate) fn invalid(d: &Doc, what: &str) -> (r: String)
    ensures
        r@ == invalid_type(*d, what@),
{
    let mut m = owned("invalid type: ");
    push_str(&mut m, d.kind_name());
    push_str(&mut m, ", expected ");
    push_str(&mut m, what);
    m
}

/// Reads one row's fields.
#[verifier::loop_isolation(false)]
fn read_row(d: &Doc) -> (r: Result<(String, Option<String>), String>)
    ensures
        match row_spec(*d) {
            Ok(v) => r matches Ok(p) && p.0@ == v.0 && match p.1 {
                Some(k) => v.1 == Some(k@),
                None => v.1 is None,
            },
            Err(m) => r matches Err(n) && n@ == m,
        },
{
    let fields = match d {
        Doc::Mapping(fields) => fields,
        _ => {
            return Err(invalid(d, "struct Entry"));
        },
    };
    let mut strategy: Option<String> = None;
    let mut key_seen = false;
    let mut key: Option<String> = None;
    let mut i: usize = 0;
    while i < fields.len()
        invariant
            i <= fields@.len(),
            row_fields(fields@, 0, (None, false, None)) == row_fields(fields@, i as int, (opt_text(strategy), key_seen, opt_text(key))),
        decreases fields.len() - i,
    {
        let (name, value) = (&fields[i].0, &fields[i].1);
        let ghost st: RowState = (opt_text(strategy), key_seen, opt_text(key));
        proof {
            assert(fields@[i as int] == (*name, *value));
        }
        match name {
            Doc::Text(n) => {
                if same_text(n.as_str(), "strategy") {
                    if strategy.is_some() {
                        return Err(owned("duplicate field `strategy`"));
                    }
                    match value {
                        Doc::Text(s) => {
                            strategy = Some(owned(s.as_str()));
                        },
                        _ => {
                            return Err(invalid(value, "a string"));
                        },
                    }
                } else if same_text(n.as_str(), "key") {
                    if key_seen {
                        return Err(owned("duplicate field `key`"));
                    }
                    match value {
                        Doc::Text(k) => {
                            key_seen = true;
                            key = Some(owned(k.as_str()));
                        },
                        Doc::Null => {
                            key_seen = true;
                            key = None;
                        },
                        _ => {
                            return Err(invalid(value, "a string"));
                        },
                    }
                } else {
                    let mut m = owned("unknown field `");
                    push_str(&mut m, n.as_str());
                    push_str(&mut m, "`, expected `strategy` or `key`");
                    return Err(m);
                }
            },
            _ => {
                return Err(invalid(name, "a field identifier"));
            },
        }
        proof {
            let nst: RowState = (opt_text(strategy), key_seen, opt_text(key));
            assert(row_fields(fields@, i as int, st) == row_fields(fields@, i + 1, nst));
        }
        i = i + 1;
    }
    match strategy {
        Some(s) => Ok((s, key)),
        None => Err(owned("missing field `strategy`")),
    }
}

/// Inserts a declaration in pointer order, or refuses a pointer already present.
fn insert_sorted(entries: &mut Vec<(Pointer, ArrayStrategy)>, pointer: Pointer, strategy: ArrayStrategy) -> (r: bool)
    requires
        ascending(rows_of(old(entries)@)),
    ensures
        r == row_keys(rows_of(old(entries)@)).contains(pointer@),
        r ==> final(entries)@ == old(entries)@,
        !r ==> ascending(rows_of(final(entries)@)),
        !r ==> rows_of(final(entries)@).to_set() == rows_of(old(entries)@).to_set().insert((pointer@, strategy_view(strategy))),
        !r ==> row_keys(rows_of(final(entries)@)).to_set() == row_keys(rows_of(old(entries)@)).to_set().insert(pointer@),
{
    let key = chars_of(pointer.as_str());
    let ghost rows = rows_of(entries@);
    let mut pos: usize = 0;
    let mut stop = false;
    while !stop && pos < entries.len()
        invariant
            pos <= entries@.len(),
            rows == rows_of(entries@),
            entries@ == old(entries)@,
            key@ == pointer@,
            forall|k: int| 0 <= k < pos ==> text_less(rows[k].0, pointer@),
            stop ==> pos < entries@.len() && text_less(pointer@, rows[pos as int].0),
        decreases entries@.len() - pos + (if stop { 0int } else { 1int }),
    {
        let here = chars_of(entries[pos].0.as_str());
        proof {
            assert(rows[pos as int].0 == here@);
        }
        let c = compare_text(&here, &key);
        if c == 0 {
            proof {
                assert(row_keys(rows)[pos as int] == pointer@);
            }
            return true;
        }
        if c > 0 {
            stop = true;
        } else {
            pos = pos + 1;
        }
    }
    proof {
        assert forall|k: int| pos <= k < rows.len() implies text_less(pointer@, #[trigger] rows[k].0) by {
            if k > pos {
                lemma_text_order_transitive(pointer@, rows[pos as int].0, rows[k].0);
            }
        }
        assert forall|k: int| 0 <= k < rows.len() implies row_keys(rows)[k] != pointer@ by {
            if k < pos {
                lemma_text_order_total(rows[k].0, pointer@);
            } else {
                lemma_text_order_total(pointer@, rows[k].0);
            }
        }
    }
    let ghost row = (pointer@, strategy_view(strategy));
    entries.insert(pos, (pointer, strategy));
    proof {
        let new_rows = rows_of(entries@);
        assert(new_rows =~= rows.take(pos as int).push(row) + rows.skip(pos as int));
        assert forall|i: int, j: int| 0 <= i < j < new_rows.len() implies text_less(new_rows[i].0, new_rows[j].0) by {
            if j < pos {
            } else if j == pos {
            } else if i < pos {
                lemma_text_order_transitive(new_rows[i].0, pointer@, new_rows[j].0);
            } else if i == pos {
            } else {
                assert(new_rows[i] == rows[i - 1] && new_rows[j] == rows[j - 1]);
            }
        }
        assert(new_rows.to_set() =~= rows.to_set().insert(row)) by {
            assert forall|x: Row| new_rows.to_set().contains(x) <==> rows.to_set().insert(row).contains(x) by {
                if new_rows.to_set().contains(x) {
                    let i = choose|i: int| 0 <= i < new_rows.len() && new_rows[i] == x;
                    if i < pos {
                        assert(rows[i] == x);
                    } else if i > pos {
                        assert(rows[i - 1] == x);
                    }
                }
                if rows.to_set().contains(x) {
                    let i = choose|i: int| 0 <= i < rows.len() && rows[i] == x;
                    if i < pos {
                        assert(new_rows[i] == x);
                    } else {
                        assert(new_rows[i + 1] == x);
                    }
                }
                if x == row {
                    assert(new_rows[pos as int] == x);
                }
            }
        }
        assert(row_keys(new_rows).to_set() =~= row_keys(rows).to_set().insert(pointer@)) by {
            assert forall|x: Seq<char>| row_keys(new_rows).to_set().contains(x) <==> row_keys(rows).to_set().insert(pointer@).contains(x) by {
                if row_keys(new_rows).to_set().contains(x) {
                    let i = choose|i: int| 0 <= i < row_keys(new_rows).len() && row_keys(new_rows)[i] == x;
                    if i < pos {
                        assert(row_keys(rows)[i] == x);
                    } else if i > pos {
                        assert(row_keys(rows)[i - 1] == x);
                    }
                }
                if row_keys(rows).to_set().contains(x) {
                    let i = choose|i: int| 0 <= i < row_keys(rows).len() && row_keys(rows)[i] == x;
                    if i < pos {
                        assert(row_keys(new_rows)[i] == x);
                    } else {
                        assert(row_keys(new_rows)[i + 1] == x);
                    }
                }
                if x == pointer@ {
                    assert(row_keys(new_rows)[pos as int] == x);
                }
            }
        }
    }
    false
}

impl StrategyTable {
    /// Reads a strategy table from its document, refusing an unusable row, a
    /// non-canonical pointer and a pointer declared twice.
    ///
    /// The table holds exactly the declared rows, ordered by pointer, so two
    /// spellings of one profile give one table.
    pub fn from_document(d: &Doc) -> (r: Result<StrategyTable, DomainError>)
        ensures
            match table_spec(*d) {
                Ok(rows) => r matches Ok(t) && t.rows().to_set() == rows.to_set(),
                Err(m) => r matches Err(DomainError::Semantic(n)) && n@ == m,
            },
    {
        let entries = match d {
            Doc::Mapping(entries) => entries,
            _ => {
                return Err(DomainError::Semantic(invalid(d, "a map of JSON pointers to array merge strategies")));
            },
        };
        let mut table: Vec<(Pointer, ArrayStrategy)> = Vec::new();
        let ghost mut acc: Seq<Row> = Seq::empty();
        proof {
            assert(rows_of(table@) =~= Seq::<Row>::empty());
            assert(row_keys(acc) =~= Seq::<Seq<char>>::empty());
        }
        let mut i: usize = 0;
        while i < entries.len()
            invariant
                i <= entries@.len(),
                table_spec(*d) == table_rows(entries@, i as int, acc),
                ascending(rows_of(table@)),
                rows_of(table@).to_set() == acc.to_set(),
                row_keys(rows_of(table@)).to_set() == row_keys(acc).to_set(),
            decreases entries.len() - i,
        {
            let (k, v) = (&entries[i].0, &entries[i].1);
            let text = match k {
                Doc::Text(t) => t,
                _ => {
                    return Err(DomainError::Semantic(invalid(k, "a string")));
                },
            };
            let (strategy_text, key) = match read_row(v) {
                Ok(row) => row,
                Err(m) => {
                    return Err(DomainError::Semantic(m));
                },
            };
            let pointer = match Pointer::parse(text.as_str()) {
                Ok(p) => p,
                Err(e) => {
                    return Err(e);
                },
            };
            let key_text: Option<&str> = match &key {
                Some(k) => Some(k.as_str()),
                None => None,
            };
            let strategy = match into_strategy(strategy_text.as_str(), key_text, text.as_str()) {
                Ok(s) => s,
                Err(m) => {
                    return Err(DomainError::Semantic(m));
                },
            };
            let ghost row = (text@, strategy_view(strategy));
            let ghost before = rows_of(table@);
            proof {
                assert(row_keys(before).to_set().contains(text@) == row_keys(acc).contains(text@)) by {
                    assert(row_keys(before).to_set().contains(text@) == row_keys(before).contains(text@));
                    assert(row_keys(acc).to_set().contains(text@) == row_keys(acc).contains(text@));
                }
            }
            if insert_sorted(&mut table, pointer, strategy) {
                let mut m = owned("the JSON pointer ");
                push_str(&mut m, text.as_str());
                push_str(&mut m, " is declared more than once");
                return Err(DomainError::Semantic(m));
            }
            proof {
                acc.lemma_push_to_set_commute(row);
                assert(row_keys(acc.push(row)) =~= row_keys(acc).push(text@));
                row_keys(acc).lemma_push_to_set_commute(text@);
                acc = acc.push(row);
            }
            i = i + 1;
        }
        Ok(StrategyTable { entries: table })
    }
}

} // verus!
