//! The ordered fold that turns settings pieces into one document.
//!
//! Pieces are objects folded left to right: objects merge key by key, any
//! other value is replaced by the later writer, and an array the strategy
//! table names is concatenated or merged by a key field instead. Pieces are
//! named by index, so the caller maps an index back to the name it reports.

use vstd::prelude::*;

use crate::doc::{
    canon_view, lemma_holds_view, path_view, view_key, lemma_holds_leaf, path_to_leaf, lemma_entry_view, view_entry, doc_view, entries_view, lemma_mapping_view, DocView, canonicalize, compare_text, copy_doc, deep_distinct, entries_hold_path, entry, entry_keyed, entry_value, has_key, holds_entry,
    is_scalar, key_text, keyed_value, lemma_holds_list, path_to_list, lemma_keyed_value_absent, lemma_keyed_value_distinct, path_holds,
    path_value, sorted_doc, text_less, Doc, path_kind, entries_reach_kind, lemma_kind_value,
};
use crate::strategy::strategy_view;
use crate::pointer::{decode_spec, encode, texts, Pointer};
use crate::strategy::{ascending, rows_of, ArrayStrategy, StrategyTable};
use crate::text::{chars_of, decimal, push_decimal, same_text, string_of};
use crate::error::owned;

verus! {

/// Where one composed leaf came from.
#[derive(Debug, PartialEq, Eq)]
pub struct KeyProvenance {
    /// The piece whose value survived, or the last contributor to a merge.
    pub piece: usize,
    /// Every earlier piece that set this key and lost, in layer order.
    pub overrode: Vec<usize>,
    /// The strategy applied, when the key is a merged array.
    pub strategy: Option<ArrayStrategy>,
    /// Every piece that contributed, when the key is a merged array.
    pub contributors: Vec<usize>,
}

impl KeyProvenance {
    /// A key exactly one piece wrote.
    pub fn single(piece: usize) -> (r: KeyProvenance)
        ensures
            r.piece == piece,
            r.overrode@.len() == 0,
            r.strategy is None,
            r.contributors@.len() == 0,
    {
        KeyProvenance { piece, overrode: Vec::new(), strategy: None, contributors: Vec::new() }
    }
}

/// A composition that cannot be performed; every variant names the pointer
/// and the pieces involved.
#[derive(Debug, PartialEq, Eq)]
pub enum MergeError {
    NotAnObject { piece: usize },
    TypeConflict { pointer: Pointer, earlier: usize, later: usize, earlier_type: &'static str, later_type: &'static str },
    StrategyTargetMissing { pointer: Pointer },
    StrategyTargetNotAnArray { pointer: Pointer, actual_type: &'static str },
    DuplicateMergeKey { pointer: Pointer, key: String, value: String, piece: usize },
    MergeKeyMissing { pointer: Pointer, key: String, piece: usize },
}

/// The text of a mapping key, as an owned string.
fn key_string(k: &Doc) -> (r: String)
    ensures
        r@ == key_text(*k),
{
    match k {
        Doc::Text(t) => t.clone(),
        _ => String::new(),
    }
}

/// The text a merge-by-key element carries under the key field, when it is
/// an object whose last entry under that key holds text.
pub open spec fn identity_of(element: Doc, key: Seq<char>) -> Option<Seq<char>> {
    match element {
        Doc::Mapping(entries) => match entry_value(entries@, key) {
            Some(Doc::Text(t)) => Some(t@),
            _ => None,
        },
        _ => None,
    }
}

/// The key text an element's content carries under the key field.
pub open spec fn view_identity(element: DocView, key: Seq<char>) -> Option<Seq<char>> {
    match element {
        DocView::Mapping(entries) => match view_entry(entries, key) {
            Some(DocView::Text(t)) => Some(t),
            _ => None,
        },
        _ => None,
    }
}

/// An element's key text depends on its content alone.
proof fn lemma_identity_view(element: Doc, key: Seq<char>)
    ensures
        identity_of(element, key) == view_identity(doc_view(element), key),
{
    if let Doc::Mapping(entries) = element {
        lemma_mapping_view(entries);
        lemma_entry_view(entries@, key);
    }
}

/// Matching on the key field reads the arriving elements by content alone.
proof fn lemma_keyed_fold_views(
    existing: Seq<Doc>,
    existing_origins: Seq<usize>,
    a: Seq<Doc>,
    b: Seq<Doc>,
    key: Seq<char>,
    piece: usize,
    n: int,
)
    requires
        views(a) == views(b),
    ensures
        keyed_fold(existing, existing_origins, a, key, piece, n) == keyed_fold(existing, existing_origins, b, key, piece, n),
    decreases n,
{
    assert(a.len() == views(a).len());
    assert(b.len() == views(b).len());
    assert forall|i: int| 0 <= i < a.len() implies #[trigger] identity_of(a[i], key) == identity_of(b[i], key)
        && doc_view(a[i]) == doc_view(b[i]) by {
        assert(views(a)[i] == doc_view(a[i]));
        assert(views(b)[i] == doc_view(b[i]));
        lemma_identity_view(a[i], key);
        lemma_identity_view(b[i], key);
    }
    if n > 0 && n <= a.len() {
        lemma_keyed_fold_views(existing, existing_origins, a, b, key, piece, n - 1);
        if let Some(v) = identity_of(a[n - 1], key) {
            if exists|x: int| 0 <= x < n - 1 && #[trigger] identity_of(a[x], key) == Some(v) {
                let x = choose|x: int| 0 <= x < n - 1 && #[trigger] identity_of(a[x], key) == Some(v);
                assert(identity_of(b[x], key) == Some(v));
            }
            if exists|x: int| 0 <= x < n - 1 && #[trigger] identity_of(b[x], key) == Some(v) {
                let x = choose|x: int| 0 <= x < n - 1 && #[trigger] identity_of(b[x], key) == Some(v);
                assert(identity_of(a[x], key) == Some(v));
            }
        }
    }
}

/// The text a merge-by-key element carries under the key field, when it is
/// an object holding text there.
fn identity(element: &Doc, key: &str) -> (r: Option<String>)
    ensures
        match identity_of(*element, key@) {
            Some(t) => r matches Some(s) && s@ == t,
            None => r is None,
        },
{
    match element {
        Doc::Mapping(entries) => match entry(entries, key) {
            Some(Doc::Text(t)) => Some(t.clone()),
            _ => None,
        },
        _ => None,
    }
}

fn contains_text(seen: &Vec<String>, value: &str) -> (r: bool)
    ensures
        r == exists|i: int| 0 <= i < seen@.len() && (#[trigger] seen@[i])@ == value@,
{
    let mut i: usize = 0;
    while i < seen.len()
        invariant
            i <= seen@.len(),
            forall|k: int| 0 <= k < i ==> (#[trigger] seen@[k])@ != value@,
        decreases seen.len() - i,
    {
        if same_text(seen[i].as_str(), value) {
            return true;
        }
        i = i + 1;
    }
    false
}

fn position_of(seen: &Vec<(String, usize)>, value: &str) -> (r: Option<usize>)
    ensures
        match r {
            Some(k) => exists|i: int| 0 <= i < seen@.len() && seen@[i].0@ == value@ && seen@[i].1 == k,
            None => forall|i: int| 0 <= i < seen@.len() ==> seen@[i].0@ != value@,
        },
{
    let mut i: usize = 0;
    while i < seen.len()
        invariant
            i <= seen@.len(),
            forall|k: int| 0 <= k < i ==> seen@[k].0@ != value@,
        decreases seen.len() - i,
    {
        if same_text(seen[i].0.as_str(), value) {
            return Some(seen[i].1);
        }
        i = i + 1;
    }
    None
}

/// The tokens of an array element's pointer: the array's tokens and the
/// element's index in decimal.
fn pointer_with_index(pointer: &Pointer, index: usize) -> (r: Vec<String>)
    ensures
        texts(r@) == decode_spec(pointer@)->Ok_0.push(decimal(index as nat)),
{
    let mut path = pointer.tokens();
    let mut token = String::new();
    push_decimal(&mut token, index as u64);
    let ghost before = path@;
    path.push(token);
    proof {
        assert(texts(path@) =~= texts(before).push(decimal(index as nat)));
    }
    path
}

/// The word a diagnostic uses for the type of a node's content.
pub open spec fn view_kind(d: DocView) -> Seq<char> {
    match d {
        DocView::Null => "null"@,
        DocView::Bool(_) => "boolean"@,
        DocView::Number(_) => "number"@,
        DocView::Text(_) => "string"@,
        DocView::List(_) => "array"@,
        DocView::Mapping(_) => "object"@,
    }
}

/// The position of the first entry whose key text is `k`.
pub open spec fn first_keyed(t: Seq<(DocView, DocView)>, k: Seq<char>) -> Option<int> {
    if exists|f: int| 0 <= f < t.len() && view_key((#[trigger] t[f]).0) == k && forall|j: int| 0 <= j < f ==> view_key(t[j].0) != k {
        Some(choose|f: int| 0 <= f < t.len() && view_key((#[trigger] t[f]).0) == k && forall|j: int| 0 <= j < f ==> view_key(t[j].0) != k)
    } else {
        None
    }
}

/// Merging one element into another: objects merge entry by entry, a
/// container facing a non-container is a conflict, reported with the path
/// below the element and the two type words, and anything else is replaced
/// by the later value.
pub open spec fn merged_view(into: DocView, from: DocView) -> Result<DocView, (Seq<Seq<char>>, Seq<char>, Seq<char>)>
    decreases from, 1int, 0int,
{
    match (into, from) {
        (DocView::Mapping(a), DocView::Mapping(b)) => match merged_entries(a, b, b.len() as int) {
            Ok(m) => Ok(DocView::Mapping(m)),
            Err(c) => Err(c),
        },
        _ => if (into is Mapping) != (from is Mapping) {
            Err((Seq::empty(), view_kind(into), view_kind(from)))
        } else {
            Ok(from)
        },
    }
}

/// The entries of a target after the first `n` source entries merged in, in
/// order: an entry whose key text the target has merges into the first such
/// entry in place, and any other is appended under its key text.
pub open spec fn merged_entries(target: Seq<(DocView, DocView)>, source: Seq<(DocView, DocView)>, n: int) -> Result<
    Seq<(DocView, DocView)>,
    (Seq<Seq<char>>, Seq<char>, Seq<char>),
>
    decreases source, 0int, n,
{
    if n <= 0 || n > source.len() {
        Ok(target)
    } else {
        match merged_entries(target, source, n - 1) {
            Err(c) => Err(c),
            Ok(t) => {
                let k = view_key(source[n - 1].0);
                match first_keyed(t, k) {
                    Some(f) => {
                        proof {
                            assert(decreases_to!(source => source[n - 1]));
                            assert(decreases_to!(source[n - 1] => source[n - 1].1));
                        }
                        match merged_view(t[f].1, source[n - 1].1) {
                            Ok(m) => Ok(t.update(f, (t[f].0, m))),
                            Err((p, a, b)) => Err((seq![k] + p, a, b)),
                        }
                    },
                    None => Ok(t.push((DocView::Text(k), source[n - 1].1))),
                }
            },
        }
    }
}

proof fn lemma_failure_persists(a: Seq<(DocView, DocView)>, b: Seq<(DocView, DocView)>, n: int, m: int)
    requires
        0 <= n <= m <= b.len(),
        merged_entries(a, b, n) is Err,
    ensures
        merged_entries(a, b, m) == merged_entries(a, b, n),
    decreases m - n,
{
    if m > n {
        lemma_failure_persists(a, b, n, m - 1);
    }
}

proof fn lemma_entry_failure(
    a: Seq<(DocView, DocView)>,
    b: Seq<(DocView, DocView)>,
    i: int,
    t: Seq<(DocView, DocView)>,
    f: int,
    c: (Seq<Seq<char>>, Seq<char>, Seq<char>),
)
    requires
        0 <= i < b.len(),
        merged_entries(a, b, i) == Ok::<Seq<(DocView, DocView)>, (Seq<Seq<char>>, Seq<char>, Seq<char>)>(t),
        first_keyed(t, view_key(b[i].0)) == Some(f),
        merged_view(t[f].1, b[i].1) == Err::<DocView, (Seq<Seq<char>>, Seq<char>, Seq<char>)>(c),
    ensures
        merged_entries(a, b, b.len() as int) == Err::<Seq<(DocView, DocView)>, (Seq<Seq<char>>, Seq<char>, Seq<char>)>(
            (seq![view_key(b[i].0)] + c.0, c.1, c.2),
        ),
{
    assert(merged_entries(a, b, i + 1) == Err::<Seq<(DocView, DocView)>, (Seq<Seq<char>>, Seq<char>, Seq<char>)>(
        (seq![view_key(b[i].0)] + c.0, c.1, c.2),
    ));
    lemma_failure_persists(a, b, i + 1, b.len() as int);
}

proof fn lemma_entry_merged(a: Seq<(DocView, DocView)>, b: Seq<(DocView, DocView)>, i: int, t: Seq<(DocView, DocView)>, f: int, m: DocView)
    requires
        0 <= i < b.len(),
        merged_entries(a, b, i) == Ok::<Seq<(DocView, DocView)>, (Seq<Seq<char>>, Seq<char>, Seq<char>)>(t),
        first_keyed(t, view_key(b[i].0)) == Some(f),
        merged_view(t[f].1, b[i].1) == Ok::<DocView, (Seq<Seq<char>>, Seq<char>, Seq<char>)>(m),
    ensures
        merged_entries(a, b, i + 1) == Ok::<Seq<(DocView, DocView)>, (Seq<Seq<char>>, Seq<char>, Seq<char>)>(
            t.update(f, (t[f].0, m)),
        ),
{
}

proof fn lemma_entry_appended(a: Seq<(DocView, DocView)>, b: Seq<(DocView, DocView)>, i: int, t: Seq<(DocView, DocView)>)
    requires
        0 <= i < b.len(),
        merged_entries(a, b, i) == Ok::<Seq<(DocView, DocView)>, (Seq<Seq<char>>, Seq<char>, Seq<char>)>(t),
        first_keyed(t, view_key(b[i].0)) is None,
    ensures
        merged_entries(a, b, i + 1) == Ok::<Seq<(DocView, DocView)>, (Seq<Seq<char>>, Seq<char>, Seq<char>)>(
            t.push((DocView::Text(view_key(b[i].0)), b[i].1)),
        ),
{
}

/// Finds the first entry whose key text is `key`.
fn first_key_position(target: &Vec<(Doc, Doc)>, key: &str) -> (r: Option<usize>)
    ensures
        r matches Some(f) ==> f < target@.len() && first_keyed(entries_view(target@), key@) == Some(f as int),
        r is None ==> first_keyed(entries_view(target@), key@) is None,
{
    let ghost t = entries_view(target@);
    let mut found: Option<usize> = None;
    let mut k: usize = 0;
    while k < target.len()
        invariant
            k <= target@.len(),
            t == entries_view(target@),
            found matches Some(f) ==> f < k && view_key(t[f as int].0) == key@ && forall|j: int|
                0 <= j < f ==> view_key(t[j].0) != key@,
            found is None ==> forall|j: int| 0 <= j < k ==> view_key(t[j].0) != key@,
        decreases target.len() - k,
    {
        proof {
            assert(t[k as int].0 == doc_view(target@[k as int].0));
        }
        if found.is_none() && same_text(key_string(&target[k].0).as_str(), key) {
            found = Some(k);
        }
        k = k + 1;
    }
    proof {
        match found {
            Some(f) => {
                assert(first_keyed(t, key@) == Some(f as int));
            },
            None => {
                assert(first_keyed(t, key@) is None);
            },
        }
    }
    found
}

/// Merges one matched element into another, recursively over objects; a
/// container facing a non-container is refused, and any other pair is an
/// ordinary override. `path` carries the element's own pointer.
#[verifier::rlimit(50)]
#[verifier::spinoff_prover]
fn shallow_merge(into: Doc, from: &Doc, path: &mut Vec<String>, earlier: usize, later: usize) -> (r: Result<Doc, MergeError>)
    ensures
        !(r matches Err(MergeError::NotAnObject { .. })),
        match merged_view(doc_view(into), doc_view(*from)) {
            Ok(v) => r matches Ok(d) && doc_view(d) == v && final(path)@ == old(path)@,
            Err((p, a, b)) => r matches Err(
                MergeError::TypeConflict { pointer, earlier: e, later: l, earlier_type, later_type },
            ) && pointer@ == encode(texts(old(path)@) + p) && e == earlier && l == later && earlier_type@ == a
                && later_type@ == b && texts(final(path)@) == texts(old(path)@) + p,
        },
    decreases from,
{
    let ghost into0 = into;
    let ghost path0 = path@;
    match (into, from) {
        (Doc::Mapping(mut target), Doc::Mapping(source)) => {
            let ghost a0 = entries_view(target@);
            let ghost b = entries_view(source@);
            proof {
                lemma_mapping_view(target);
                lemma_mapping_view(*source);
            }
            let mut i: usize = 0;
            while i < source.len()
                invariant
                    *from == Doc::Mapping(*source),
                    i <= source@.len(),
                    b == entries_view(source@),
                    merged_entries(a0, b, i as int) == Ok::<Seq<(DocView, DocView)>, (Seq<Seq<char>>, Seq<char>, Seq<char>)>(
                        entries_view(target@),
                    ),
                    path@ == path0,
                    doc_view(into0) == DocView::Mapping(a0),
                    doc_view(*from) == DocView::Mapping(b),
                    path0 == old(path)@,
                    into0 == into,
                decreases source.len() - i,
            {
                let key = key_string(&source[i].0);
                proof {
                    assert(b[i as int] == (doc_view(source@[i as int].0), doc_view(source@[i as int].1)));
                    assert(key@ == view_key(b[i as int].0));
                }
                let ghost t = entries_view(target@);
                let found = first_key_position(&target, key.as_str());
                match found {
                    Some(f) => {
                        let (tk, existing) = target.remove(f);
                        path.push(key);
                        proof {
                            assert(decreases_to!(*from => (*from)->Mapping_0));
                            assert(decreases_to!(*source => source@));
                            assert(decreases_to!(source@ => source@[i as int]));
                            assert(decreases_to!(source@[i as int] => source@[i as int].1));
                            assert(t[f as int] == (doc_view(tk), doc_view(existing)));
                            assert(texts(path@) =~= texts(path0).push(view_key(b[i as int].0)));
                        }
                        let ghost pushed = path@;
                        let merged = match shallow_merge(existing, &source[i].1, path, earlier, later) {
                            Ok(m) => m,
                            Err(e) => {
                                proof {
                                    assert(doc_view(source@[i as int].1) == b[i as int].1);
                                    let c = merged_view(t[f as int].1, b[i as int].1)->Err_0;
                                    lemma_entry_failure(a0, b, i as int, t, f as int, c);
                                    let kt = view_key(b[i as int].0);
                                    assert(texts(pushed) + c.0 =~= texts(path0) + (seq![kt] + c.0));
                                }
                                return Err(e);
                            },
                        };
                        path.pop();
                        target.insert(f, (tk, merged));
                        proof {
                            assert(doc_view(source@[i as int].1) == b[i as int].1);
                            assert(entries_view(target@) =~= t.update(f as int, (t[f as int].0, doc_view(merged))));
                            lemma_entry_merged(a0, b, i as int, t, f as int, doc_view(merged));
                        }
                    },
                    None => {
                        target.push((Doc::Text(key), copy_doc(&source[i].1)));
                        proof {
                            assert(entries_view(target@) =~= t.push((DocView::Text(view_key(b[i as int].0)), b[i as int].1)));
                            lemma_entry_appended(a0, b, i as int, t);
                        }
                    },
                }
                i = i + 1;
            }
            proof {
                lemma_mapping_view(target);
            }
            Ok(Doc::Mapping(target))
        },
        (target, source) => {
            let earlier_type = target.kind_name();
            let later_type = source.kind_name();
            let target_object = match target { Doc::Mapping(_) => true, _ => false };
            let source_object = match source { Doc::Mapping(_) => true, _ => false };
            if target_object != source_object {
                proof {
                    assert(texts(path@) + Seq::<Seq<char>>::empty() =~= texts(path@));
                }
                return Err(MergeError::TypeConflict {
                    pointer: Pointer::from_tokens(path),
                    earlier,
                    later,
                    earlier_type,
                    later_type,
                });
            }
            Ok(copy_doc(source))
        },
    }
}


fn key_missing(pointer: &Pointer, key: &str, piece: usize) -> (r: MergeError)
    ensures
        r matches MergeError::MergeKeyMissing { pointer: p, key: k, piece: q } && p@ == pointer@ && k@ == key@
            && q == piece,
{
    MergeError::MergeKeyMissing { pointer: pointer.duplicate(), key: owned(key), piece }
}

fn duplicate_key(pointer: &Pointer, key: &str, value: String, piece: usize) -> (r: MergeError)
    ensures
        r matches MergeError::DuplicateMergeKey { pointer: p, key: k, value: v, piece: q } && p@ == pointer@
            && k@ == key@ && v@ == value@ && q == piece,
{
    MergeError::DuplicateMergeKey { pointer: pointer.duplicate(), key: owned(key), value, piece }
}

/// The contents of a list of nodes.
pub open spec fn views(s: Seq<Doc>) -> Seq<DocView> {
    Seq::new(s.len(), |i: int| doc_view(s[i]))
}

/// Why matching elements on a key field stopped.
pub enum KeyedFailure {
    /// An arriving element from the given piece carries no key text.
    Missing(usize),
    /// An arriving element from the given piece repeats the key text of an
    /// earlier arriving one.
    Duplicate(Seq<char>, usize),
    /// Merging into the element at the given position met a conflict at the
    /// path below it, between the two pieces, with the two type words.
    Conflict(usize, Seq<Seq<char>>, usize, usize, Seq<char>, Seq<char>),
}

/// An existing element carrying the key text `v`.
pub open spec fn identity_position(existing: Seq<Doc>, key: Seq<char>, v: Seq<char>) -> Option<int> {
    if exists|x: int| 0 <= x < existing.len() && #[trigger] identity_of(existing[x], key) == Some(v) {
        Some(choose|x: int| 0 <= x < existing.len() && #[trigger] identity_of(existing[x], key) == Some(v))
    } else {
        None
    }
}

/// The elements and their pieces after the first `n` arriving elements are
/// matched on the key field against existing elements that carry distinct
/// key texts: a match merges into the existing element and takes the
/// arriving piece, anything else is appended.
pub open spec fn keyed_fold(
    existing: Seq<Doc>,
    existing_origins: Seq<usize>,
    addition: Seq<Doc>,
    key: Seq<char>,
    piece: usize,
    n: int,
) -> Result<(Seq<DocView>, Seq<usize>), KeyedFailure>
    decreases n,
{
    if n <= 0 || n > addition.len() {
        Ok((views(existing), Seq::new(existing.len(), |i: int| origin_at(existing_origins, i, piece))))
    } else {
        match keyed_fold(existing, existing_origins, addition, key, piece, n - 1) {
            Err(f) => Err(f),
            Ok((ms, os)) => match identity_of(addition[n - 1], key) {
                None => Err(KeyedFailure::Missing(piece)),
                Some(v) => if exists|a: int| 0 <= a < n - 1 && #[trigger] identity_of(addition[a], key) == Some(v) {
                    Err(KeyedFailure::Duplicate(v, piece))
                } else {
                    match identity_position(existing, key, v) {
                        Some(x) => match merged_view(ms[x], doc_view(addition[n - 1])) {
                            Ok(m) => Ok((ms.update(x, m), os.update(x, piece))),
                            Err((p, a, b)) => Err(KeyedFailure::Conflict(x as usize, p, os[x], piece, a, b)),
                        },
                        None => Ok((ms.push(doc_view(addition[n - 1])), os.push(piece))),
                    }
                },
            },
        }
    }
}

/// The existing content whose key field carries the text `v`.
pub open spec fn view_position(existing: Seq<DocView>, key: Seq<char>, v: Seq<char>) -> Option<int> {
    if exists|x: int| 0 <= x < existing.len() && #[trigger] view_identity(existing[x], key) == Some(v) {
        Some(choose|x: int| 0 <= x < existing.len() && #[trigger] view_identity(existing[x], key) == Some(v))
    } else {
        None
    }
}

/// Whether every content carries key text under the key field, no two the
/// same.
pub open spec fn view_keys_sound(existing: Seq<DocView>, key: Seq<char>) -> bool {
    &&& forall|i: int| 0 <= i < existing.len() ==> (#[trigger] view_identity(existing[i], key)) is Some
    &&& forall|a: int, b: int| 0 <= a < b < existing.len() ==> #[trigger] view_identity(existing[a], key)
        != #[trigger] view_identity(existing[b], key)
}

/// The contents `merge-by-key` makes of an earlier array and the first `n`
/// elements of an arriving one, read by content alone: a match on the key
/// field merges into the earlier element, anything else is appended;
/// nothing when an element lacks key text, repeats one, or cannot merge.
pub open spec fn view_keyed(existing: Seq<DocView>, addition: Seq<DocView>, key: Seq<char>, n: int) -> Option<
    Seq<DocView>,
>
    decreases n,
{
    if n <= 0 || n > addition.len() {
        if view_keys_sound(existing, key) {
            Some(existing)
        } else {
            None
        }
    } else {
        match view_keyed(existing, addition, key, n - 1) {
            None => None,
            Some(ms) => match view_identity(addition[n - 1], key) {
                None => None,
                Some(v) => if exists|a: int| 0 <= a < n - 1 && #[trigger] view_identity(addition[a], key) == Some(v) {
                    None
                } else {
                    match view_position(existing, key, v) {
                        Some(x) => match merged_view(ms[x], addition[n - 1]) {
                            Ok(m) => Some(ms.update(x, m)),
                            Err(_) => None,
                        },
                        None => Some(ms.push(addition[n - 1])),
                    }
                },
            },
        }
    }
}

/// What a declared strategy makes of an earlier array's contents and an
/// arriving array's: `concat` appends, `merge-by-key` matches on the key
/// field.
pub open spec fn combine(s: (bool, Seq<char>), l: Seq<DocView>, items: Seq<DocView>) -> Option<Seq<DocView>> {
    if s.0 {
        view_keyed(l, items, s.1, items.len() as int)
    } else {
        Some(l + items)
    }
}

/// Matching on the key field, once the existing elements carry sound key
/// texts, reads every element by content alone.
proof fn lemma_keyed_view(
    existing: Seq<Doc>,
    existing_origins: Seq<usize>,
    addition: Seq<Doc>,
    key: Seq<char>,
    piece: usize,
    n: int,
)
    requires
        forall|i: int| 0 <= i < existing.len() ==> !#[trigger] key_defect(existing, key, i),
    ensures
        keyed_fold(existing, existing_origins, addition, key, piece, n) matches Ok((ms, _)) ==> view_keyed(
            views(existing),
            views(addition),
            key,
            n,
        ) == Some(ms),
    decreases n,
{
    let ev = views(existing);
    let av = views(addition);
    assert forall|i: int| 0 <= i < existing.len() implies #[trigger] view_identity(ev[i], key) == identity_of(
        existing[i],
        key,
    ) by {
        lemma_identity_view(existing[i], key);
    }
    assert forall|i: int| 0 <= i < addition.len() implies #[trigger] view_identity(av[i], key) == identity_of(
        addition[i],
        key,
    ) by {
        lemma_identity_view(addition[i], key);
    }
    if n <= 0 || n > addition.len() {
        assert forall|i: int| 0 <= i < ev.len() implies (#[trigger] view_identity(ev[i], key)) is Some by {
            assert(!key_defect(existing, key, i));
        }
        assert forall|a: int, b: int| 0 <= a < b < ev.len() implies #[trigger] view_identity(ev[a], key)
            != #[trigger] view_identity(ev[b], key) by {
            assert(!key_defect(existing, key, b));
            assert(view_identity(ev[a], key) == identity_of(existing[a], key));
            assert(view_identity(ev[b], key) == identity_of(existing[b], key));
        }
    } else {
        lemma_keyed_view(existing, existing_origins, addition, key, piece, n - 1);
        if let Ok((ms, os)) = keyed_fold(existing, existing_origins, addition, key, piece, n - 1) {
            assert(view_identity(av[n - 1], key) == identity_of(addition[n - 1], key));
            if let Some(v) = identity_of(addition[n - 1], key) {
                if exists|a: int| 0 <= a < n - 1 && #[trigger] view_identity(av[a], key) == Some(v) {
                    let a = choose|a: int| 0 <= a < n - 1 && #[trigger] view_identity(av[a], key) == Some(v);
                    assert(identity_of(addition[a], key) == Some(v));
                }
                if exists|a: int| 0 <= a < n - 1 && #[trigger] identity_of(addition[a], key) == Some(v) {
                    let a = choose|a: int| 0 <= a < n - 1 && #[trigger] identity_of(addition[a], key) == Some(v);
                    assert(view_identity(av[a], key) == Some(v));
                }
                if exists|x: int| 0 <= x < ev.len() && #[trigger] view_identity(ev[x], key) == Some(v) {
                    let x1 = choose|x: int| 0 <= x < ev.len() && #[trigger] view_identity(ev[x], key) == Some(v);
                    assert(identity_of(existing[x1], key) == Some(v));
                    let x0 = choose|x: int| 0 <= x < existing.len() && #[trigger] identity_of(existing[x], key) == Some(v);
                    if x0 != x1 {
                        if x0 < x1 {
                            assert(key_defect(existing, key, x1));
                        } else {
                            assert(key_defect(existing, key, x0));
                        }
                    }
                    assert(identity_position(existing, key, v) == Some(x1));
                    assert(view_position(ev, key, v) == Some(x1));
                } else {
                    if exists|x: int| 0 <= x < existing.len() && #[trigger] identity_of(existing[x], key) == Some(v) {
                        let x0 = choose|x: int| 0 <= x < existing.len() && #[trigger] identity_of(existing[x], key) == Some(v);
                        assert(view_identity(ev[x0], key) == Some(v));
                    }
                }
                assert(av[n - 1] == doc_view(addition[n - 1]));
            }
        }
    }
}

/// The error that reports why matching on the key field stopped.
pub open spec fn keyed_error(e: MergeError, f: KeyedFailure, pointer: Seq<char>, key: Seq<char>) -> bool {
    match f {
        KeyedFailure::Missing(q) => defect_error(e, pointer, key, None, q),
        KeyedFailure::Duplicate(v, q) => defect_error(e, pointer, key, Some(v), q),
        KeyedFailure::Conflict(x, p, a, b, at, bt) => e matches MergeError::TypeConflict {
            pointer: t,
            earlier,
            later,
            earlier_type,
            later_type,
        } && t@ == encode(decode_spec(pointer)->Ok_0.push(decimal(x as nat)) + p) && earlier == a && later == b
            && earlier_type@ == at && later_type@ == bt,
    }
}

proof fn lemma_keyed_failure_persists(
    existing: Seq<Doc>,
    existing_origins: Seq<usize>,
    addition: Seq<Doc>,
    key: Seq<char>,
    piece: usize,
    n: int,
    m: int,
)
    requires
        0 <= n <= m <= addition.len(),
        keyed_fold(existing, existing_origins, addition, key, piece, n) is Err,
    ensures
        keyed_fold(existing, existing_origins, addition, key, piece, m) == keyed_fold(
            existing,
            existing_origins,
            addition,
            key,
            piece,
            n,
        ),
    decreases m - n,
{
    if m > n {
        lemma_keyed_failure_persists(existing, existing_origins, addition, key, piece, n, m - 1);
    }
}

/// Matching on the key field names only pieces up to the arriving one.
proof fn lemma_keyed_fold_pieces(
    existing: Seq<Doc>,
    existing_origins: Seq<usize>,
    addition: Seq<Doc>,
    key: Seq<char>,
    piece: usize,
    n: int,
)
    requires
        forall|i: int| 0 <= i < existing_origins.len() ==> #[trigger] existing_origins[i] <= piece,
    ensures
        keyed_fold(existing, existing_origins, addition, key, piece, n) matches Ok((ms, os)) ==> os.len()
            >= existing.len() && forall|i: int| 0 <= i < os.len() ==> #[trigger] os[i] <= piece,
        keyed_fold(existing, existing_origins, addition, key, piece, n) matches Err(
            KeyedFailure::Conflict(_, _, a, b, _, _),
        ) ==> a <= piece && b == piece,
    decreases n,
{
    if n > 0 && n <= addition.len() {
        lemma_keyed_fold_pieces(existing, existing_origins, addition, key, piece, n - 1);
        if let Ok((ms, os)) = keyed_fold(existing, existing_origins, addition, key, piece, n - 1) {
            let u = os.push(piece);
            assert forall|i: int| 0 <= i < u.len() implies #[trigger] u[i] <= piece by {
                if i < os.len() {
                    assert(u[i] == os[i]);
                }
            }
            assert forall|x: int, i: int| 0 <= x < os.len() && 0 <= i < os.update(x, piece).len() implies
                #[trigger] os.update(x, piece)[i] <= piece by {
                if i != x {
                    assert(os.update(x, piece)[i] == os[i]);
                }
            }
            if let Some(v) = identity_of(addition[n - 1], key) {
                if let Some(x) = identity_position(existing, key, v) {
                    assert(0 <= x < existing.len());
                    assert(os[x] <= piece);
                }
            }
        }
    } else {
        let os = Seq::new(existing.len(), |i: int| origin_at(existing_origins, i, piece));
        assert forall|i: int| 0 <= i < os.len() implies #[trigger] os[i] <= piece by {
            if i < existing_origins.len() {
                assert(origin_at(existing_origins, i, piece) == existing_origins[i]);
            }
        }
    }
}

/// Matches elements on a named field, merging matches and appending the
/// rest; returns the merged elements and the piece each one came from.
#[verifier::rlimit(50)]
#[verifier::spinoff_prover]
fn merge_by_key(
    pointer: &Pointer,
    key: &str,
    existing: Vec<Doc>,
    existing_origins: &Vec<usize>,
    addition: Vec<Doc>,
    piece: usize,
) -> (r: Result<(Vec<Doc>, Vec<usize>), MergeError>)
    ensures
        !(r matches Err(MergeError::NotAnObject { .. })),
        r matches Ok((merged, origins)) ==> merged@.len() == origins@.len(),
        (exists|i: int| 0 <= i < existing@.len() && #[trigger] key_defect(existing@, key@, i)) ==> (r matches Err(e)
            && exists|i: int| 0 <= i < existing@.len() && #[trigger] key_defect(existing@, key@, i) && (forall|j: int|
            0 <= j < i ==> !#[trigger] key_defect(existing@, key@, j)) && defect_error(
            e,
            pointer@,
            key@,
            identity_of(existing@[i], key@),
            origin_at(existing_origins@, i, piece),
        )),
        (forall|i: int| 0 <= i < existing@.len() ==> !#[trigger] key_defect(existing@, key@, i)) ==> match keyed_fold(
            existing@,
            existing_origins@,
            addition@,
            key@,
            piece,
            addition@.len() as int,
        ) {
            Ok((ms, os)) => r matches Ok((m, o)) && views(m@) == ms && o@ == os,
            Err(f) => r matches Err(e) && keyed_error(e, f, pointer@, key@),
        },
{
    let ghost ex = existing@;
    let ghost add = addition@;
    let mut merged: Vec<Doc> = Vec::new();
    let mut origins: Vec<usize> = Vec::new();
    let mut seen: Vec<(String, usize)> = Vec::new();
    let mut rest = existing;
    let mut index: usize = 0;
    let total = rest.len();
    while index < total
        invariant
            ex == existing@,
            add == addition@,
            total == ex.len(),
            merged@.len() == origins@.len(),
            rest@ == ex.skip(index as int),
            index <= total,
            merged@ == ex.take(index as int),
            origins@ == Seq::new(index as nat, |i: int| origin_at(existing_origins@, i, piece)),
            seen@.len() == index,
            forall|k: int| 0 <= k < index ==> (#[trigger] seen@[k]).1 == k && Some(seen@[k].0@) == identity_of(ex[k], key@),
            forall|j: int| 0 <= j < index ==> !#[trigger] key_defect(ex, key@, j),
        decreases total - index,
    {
        let element = rest.remove(0);
        proof {
            assert(element == ex[index as int]);
            assert(rest@ =~= ex.skip(index + 1));
        }
        let origin = if index < existing_origins.len() { existing_origins[index] } else { piece };
        let value = match identity(&element, key) {
            Some(v) => v,
            None => {
                proof {
                    assert(key_defect(ex, key@, index as int));
                }
                return Err(key_missing(pointer, key, origin));
            },
        };
        if position_of(&seen, value.as_str()).is_some() {
            proof {
                let a = choose|a: int| 0 <= a < seen@.len() && seen@[a].0@ == value@;
                assert(seen@[a].0@ == value@);
                assert(identity_of(ex[a], key@) == identity_of(ex[index as int], key@));
                assert(key_defect(ex, key@, index as int));
            }
            return Err(duplicate_key(pointer, key, value, origin));
        }
        proof {
            assert forall|a: int| 0 <= a < index implies #[trigger] identity_of(ex[a], key@) != identity_of(
                ex[index as int],
                key@,
            ) by {
                assert(Some(seen@[a].0@) == identity_of(ex[a], key@));
            }
            assert(!key_defect(ex, key@, index as int));
        }
        let ghost seen_before = seen@;
        let position = merged.len();
        seen.push((value, position));
        merged.push(element);
        origins.push(origin);
        proof {
            assert(merged@ =~= ex.take(index + 1));
            assert(origins@ =~= Seq::new((index + 1) as nat, |i: int| origin_at(existing_origins@, i, piece)));
            assert forall|k: int| 0 <= k < index + 1 implies (#[trigger] seen@[k]).1 == k && Some(seen@[k].0@)
                == identity_of(ex[k], key@) by {
                if k < index {
                    assert(seen@[k] == seen_before[k]);
                }
            }
        }
        index = index + 1;
    }
    proof {
        assert(merged@ =~= ex);
        assert(views(merged@) =~= views(ex));
        assert(origins@ =~= Seq::new(ex.len(), |i: int| origin_at(existing_origins@, i, piece)));
    }
    let mut added: Vec<String> = Vec::new();
    let mut more = addition;
    let count = more.len();
    let mut j: usize = 0;
    while j < count
        invariant
            ex == existing@,
            add == addition@,
            total == ex.len(),
            count == add.len(),
            forall|i: int| 0 <= i < ex.len() ==> !#[trigger] key_defect(ex, key@, i),
            merged@.len() == origins@.len(),
            more@ == add.skip(j as int),
            j <= count,
            keyed_fold(ex, existing_origins@, add, key@, piece, j as int) == Ok::<
                (Seq<DocView>, Seq<usize>),
                KeyedFailure,
            >((views(merged@), origins@)),
            added@.len() == j,
            forall|a: int| 0 <= a < j ==> Some((#[trigger] added@[a])@) == identity_of(add[a], key@),
            seen@.len() >= ex.len(),
            forall|k: int| 0 <= k < ex.len() ==> (#[trigger] seen@[k]).1 == k && Some(seen@[k].0@) == identity_of(ex[k], key@),
            forall|k: int| ex.len() <= k < seen@.len() ==> exists|a: int| 0 <= a < j && #[trigger] identity_of(add[a], key@) == Some(
                (#[trigger] seen@[k]).0@,
            ),
            forall|k: int| 0 <= k < seen@.len() ==> (#[trigger] seen@[k]).1 < merged@.len(),
            merged@.len() >= ex.len(),
        decreases count - j,
    {
        let element = more.remove(0);
        proof {
            assert(element == add[j as int]);
            assert(more@ =~= add.skip(j + 1));
        }
        let ghost ms = views(merged@);
        let ghost os = origins@;
        let value = match identity(&element, key) {
            Some(v) => v,
            None => {
                proof {
                    assert(keyed_fold(ex, existing_origins@, add, key@, piece, j + 1) == Err::<
                        (Seq<DocView>, Seq<usize>),
                        KeyedFailure,
                    >(KeyedFailure::Missing(piece)));
                    lemma_keyed_failure_persists(ex, existing_origins@, add, key@, piece, j + 1, add.len() as int);
                }
                return Err(key_missing(pointer, key, piece));
            },
        };
        if contains_text(&added, value.as_str()) {
            proof {
                let a = choose|a: int| 0 <= a < added@.len() && (#[trigger] added@[a])@ == value@;
                assert(identity_of(add[a], key@) == Some(value@));
                assert(keyed_fold(ex, existing_origins@, add, key@, piece, j + 1) == Err::<
                    (Seq<DocView>, Seq<usize>),
                    KeyedFailure,
                >(KeyedFailure::Duplicate(value@, piece)));
                lemma_keyed_failure_persists(ex, existing_origins@, add, key@, piece, j + 1, add.len() as int);
            }
            return Err(duplicate_key(pointer, key, value, piece));
        }
        proof {
            assert forall|a: int| 0 <= a < j implies #[trigger] identity_of(add[a], key@) != Some(value@) by {
                assert(Some(added@[a]@) == identity_of(add[a], key@));
            }
        }
        let ghost added_before = added@;
        added.push(owned(value.as_str()));
        proof {
            assert forall|a: int| 0 <= a < j + 1 implies Some((#[trigger] added@[a])@) == identity_of(add[a], key@) by {
                if a < j {
                    assert(added@[a] == added_before[a]);
                }
            }
        }
        match position_of(&seen, value.as_str()) {
            Some(at) => {
                proof {
                    let w = choose|w: int| 0 <= w < seen@.len() && seen@[w].0@ == value@ && seen@[w].1 == at;
                    if w >= ex.len() {
                        assert(seen@[w].0@ == value@);
                        let a = choose|a: int| 0 <= a < j && #[trigger] identity_of(add[a], key@) == Some(seen@[w].0@);
                        assert(identity_of(add[a], key@) != Some(value@));
                    }
                    assert(w < ex.len());
                    assert(seen@[w].1 == w);
                    assert(identity_of(ex[w], key@) == Some(value@));
                    let x = identity_position(ex, key@, value@)->0;
                    assert(identity_of(ex[x], key@) == Some(value@));
                    if x < w {
                        assert(key_defect(ex, key@, w));
                    } else if w < x {
                        assert(key_defect(ex, key@, x));
                    }
                    assert(identity_position(ex, key@, value@) == Some(at as int));
                    assert(ms[at as int] == doc_view(merged@[at as int]));
                }
                let earlier = origins[at];
                let mut path = pointer_with_index(pointer, at);
                let ghost path0 = path@;
                let current = merged.remove(at);
                let combined = match shallow_merge(current, &element, &mut path, earlier, piece) {
                    Ok(c) => c,
                    Err(e) => {
                        proof {
                            let c = merged_view(ms[at as int], doc_view(element))->Err_0;
                            assert(keyed_fold(ex, existing_origins@, add, key@, piece, j + 1) == Err::<
                                (Seq<DocView>, Seq<usize>),
                                KeyedFailure,
                            >(KeyedFailure::Conflict(at, c.0, os[at as int], piece, c.1, c.2)));
                            lemma_keyed_failure_persists(ex, existing_origins@, add, key@, piece, j + 1, add.len() as int);
                        }
                        return Err(e);
                    },
                };
                merged.insert(at, combined);
                origins.set(at, piece);
                proof {
                    assert(views(merged@) =~= ms.update(at as int, doc_view(combined)));
                    assert(keyed_fold(ex, existing_origins@, add, key@, piece, j + 1) == Ok::<
                        (Seq<DocView>, Seq<usize>),
                        KeyedFailure,
                    >((views(merged@), origins@)));
                }
            },
            None => {
                proof {
                    assert forall|x: int| 0 <= x < ex.len() implies #[trigger] identity_of(ex[x], key@) != Some(value@) by {
                        assert(seen@[x].0@ != value@);
                    }
                    assert(identity_position(ex, key@, value@) is None);
                }
                let ghost seen_before = seen@;
                let position = merged.len();
                seen.push((value, position));
                merged.push(element);
                origins.push(piece);
                proof {
                    assert(views(merged@) =~= ms.push(doc_view(element)));
                    assert(keyed_fold(ex, existing_origins@, add, key@, piece, j + 1) == Ok::<
                        (Seq<DocView>, Seq<usize>),
                        KeyedFailure,
                    >((views(merged@), origins@)));
                    assert forall|k: int| ex.len() <= k < seen@.len() implies exists|a: int| 0 <= a < j + 1
                        && #[trigger] identity_of(add[a], key@) == Some((#[trigger] seen@[k]).0@) by {
                        if k < seen_before.len() {
                            assert(seen@[k] == seen_before[k]);
                            let a = choose|a: int| 0 <= a < j && #[trigger] identity_of(add[a], key@) == Some(seen_before[k].0@);
                            assert(identity_of(add[a], key@) == Some(seen@[k].0@));
                        } else {
                            assert(identity_of(add[j as int], key@) == Some(seen@[k].0@));
                        }
                    }
                    assert forall|k: int| 0 <= k < ex.len() implies (#[trigger] seen@[k]).1 == k && Some(seen@[k].0@)
                        == identity_of(ex[k], key@) by {
                        assert(seen@[k] == seen_before[k]);
                    }
                    assert forall|k: int| 0 <= k < seen@.len() implies (#[trigger] seen@[k]).1 < merged@.len() by {
                        if k < seen_before.len() {
                            assert(seen@[k] == seen_before[k]);
                        }
                    }
                }
            },
        }
        j = j + 1;
    }
    proof {
        assert(j == add.len());
    }
    Ok((merged, origins))
}

/// The piece element `i` of a merged array came from: its recorded origin,
/// or `owner` past the end of the record.
pub open spec fn origin_at(origins: Seq<usize>, i: int, owner: usize) -> usize {
    if i < origins.len() {
        origins[i]
    } else {
        owner
    }
}

/// Whether element `i` of a merge-by-key array carries no key text, or one
/// an earlier element already carries.
pub open spec fn key_defect(elements: Seq<Doc>, key: Seq<char>, i: int) -> bool {
    ||| identity_of(elements[i], key) is None
    ||| exists|a: int| 0 <= a < i && #[trigger] identity_of(elements[a], key) == identity_of(elements[i], key)
}

/// The error that reports a defective element: a missing key, or the key
/// text that repeats.
pub open spec fn defect_error(e: MergeError, pointer: Seq<char>, key: Seq<char>, found: Option<Seq<char>>, piece: usize) -> bool {
    match found {
        None => e matches MergeError::MergeKeyMissing { pointer: p, key: k, piece: q } && p@ == pointer && k@ == key
            && q == piece,
        Some(v) => e matches MergeError::DuplicateMergeKey { pointer: p, key: k, value: w, piece: q } && p@ == pointer
            && k@ == key && w@ == v && q == piece,
    }
}

/// Confirms every element of a merge-by-key array carries a unique key,
/// naming the piece that wrote the offending element.
fn validate_merge_by_key(pointer: &Pointer, key: &str, elements: &Vec<Doc>, origins: &Vec<usize>, owner: usize) -> (r: Result<(), MergeError>)
    ensures
        !(r matches Err(MergeError::NotAnObject { .. })),
        r is Ok <==> forall|i: int| 0 <= i < elements@.len() ==> !#[trigger] key_defect(elements@, key@, i),
        r matches Err(e) ==> exists|i: int| 0 <= i < elements@.len() && #[trigger] key_defect(elements@, key@, i)
            && (forall|j: int| 0 <= j < i ==> !#[trigger] key_defect(elements@, key@, j)) && defect_error(
            e,
            pointer@,
            key@,
            identity_of(elements@[i], key@),
            origin_at(origins@, i, owner),
        ),
{
    let mut seen: Vec<String> = Vec::new();
    let mut i: usize = 0;
    while i < elements.len()
        invariant
            i <= elements@.len(),
            seen@.len() == i,
            forall|k: int| 0 <= k < i ==> identity_of(elements@[k], key@) == Some(#[trigger] seen@[k]@),
            forall|j: int| 0 <= j < i ==> !#[trigger] key_defect(elements@, key@, j),
        decreases elements.len() - i,
    {
        let piece = if i < origins.len() { origins[i] } else { owner };
        let value = match identity(&elements[i], key) {
            Some(v) => v,
            None => {
                proof {
                    assert(key_defect(elements@, key@, i as int));
                }
                return Err(key_missing(pointer, key, piece));
            },
        };
        if contains_text(&seen, value.as_str()) {
            proof {
                let a = choose|a: int| 0 <= a < seen@.len() && (#[trigger] seen@[a])@ == value@;
                assert(identity_of(elements@[a], key@) == identity_of(elements@[i as int], key@));
                assert(key_defect(elements@, key@, i as int));
            }
            return Err(duplicate_key(pointer, key, value, piece));
        }
        proof {
            assert forall|a: int| 0 <= a < i implies #[trigger] identity_of(elements@[a], key@) != identity_of(
                elements@[i as int],
                key@,
            ) by {
                assert(identity_of(elements@[a], key@) == Some(seen@[a]@));
            }
            assert(!key_defect(elements@, key@, i as int));
        }
        let ghost before = seen@;
        seen.push(value);
        proof {
            assert forall|k: int| 0 <= k < i + 1 implies identity_of(elements@[k], key@) == Some(#[trigger] seen@[k]@) by {
                if k < i {
                    assert(seen@[k] == before[k]);
                }
            }
        }
        i = i + 1;
    }
    Ok(())
}

/// One node of the document being folded: an object, with the piece that
/// first made it one, or a leaf, with its provenance and, for an array a
/// strategy merged, the piece each element came from.
#[derive(Debug)]
enum Node {
    Object { created_by: usize, members: Vec<(String, Node)> },
    Leaf { value: Doc, provenance: KeyProvenance, origins: Option<Vec<usize>> },
}

/// Whether a list of piece indices is strictly ascending.
pub open spec fn ascending_pieces(s: Seq<usize>) -> bool {
    forall|i: int, j: int| 0 <= i < j < s.len() ==> s[i] < s[j]
}

/// Whether a provenance names pieces in layer order, all below `pieces`:
/// the overridden pieces ascending and before the winner; a merged array's
/// contributors ascending and ending with the winner, with no override chain.
pub open spec fn provenance_ok(p: KeyProvenance, pieces: int) -> bool {
    &&& p.piece < pieces
    &&& ascending_pieces(p.overrode@)
    &&& forall|i: int| 0 <= i < p.overrode@.len() ==> #[trigger] p.overrode@[i] < p.piece
    &&& (p.strategy is Some) == (p.contributors@.len() > 0)
    &&& p.strategy is Some ==> p.overrode@.len() == 0 && ascending_pieces(p.contributors@)
        && p.contributors@.last() == p.piece
}

spec fn node_ok(n: Node, pieces: int) -> bool
    decreases n,
{
    match n {
        Node::Leaf { value, provenance, origins } => provenance_ok(provenance, pieces) && !(value is Mapping) && (
        origins matches Some(o) ==> forall|i: int| 0 <= i < o@.len() ==> #[trigger] o@[i] < pieces),
        Node::Object { created_by, members } => created_by < pieces && forall|i: int| 0 <= i < members@.len() ==> node_ok(
            #[trigger] members@[i].1,
            pieces,
        ),
    }
}

spec fn members_ok(ms: Seq<(String, Node)>, pieces: int) -> bool {
    forall|i: int| 0 <= i < ms.len() ==> node_ok(#[trigger] ms[i].1, pieces)
}

/// Whether some member carries the key `k`.
spec fn member_named(ms: Seq<(String, Node)>, k: Seq<char>) -> bool {
    exists|i: int| 0 <= i < ms.len() && (#[trigger] ms[i]).0@ == k
}

/// Whether some member named `k` is a leaf holding `v`.
spec fn member_leaf(ms: Seq<(String, Node)>, k: Seq<char>, v: Doc) -> bool {
    exists|i: int| 0 <= i < ms.len() && (#[trigger] ms[i]).0@ == k && (ms[i].1 matches Node::Leaf { value, .. }
        && value == v)
}

/// Whether no two members share a key.
spec fn distinct_members(ms: Seq<(String, Node)>) -> bool {
    forall|a: int, b: int| 0 <= a < b < ms.len() ==> (#[trigger] ms[a]).0@ != (#[trigger] ms[b]).0@
}

/// Whether every object below a node lists each key once, and no leaf holds
/// an object.
spec fn node_distinct(n: Node) -> bool
    decreases n,
{
    match n {
        Node::Object { members, .. } => distinct_members(members@) && forall|i: int| 0 <= i < members@.len()
            ==> node_distinct(#[trigger] members@[i].1),
        Node::Leaf { value, .. } => !(value is Mapping),
    }
}

/// Whether members list each key once, at every depth.
spec fn members_distinct(ms: Seq<(String, Node)>) -> bool {
    distinct_members(ms) && forall|i: int| 0 <= i < ms.len() ==> node_distinct(#[trigger] ms[i].1)
}

/// The value a piece gives the top-level key `k`: its last entry under it.
pub open spec fn piece_value(d: Doc, k: Seq<char>) -> Option<Doc> {
    match d {
        Doc::Mapping(e) => keyed_value(e@, k),
        _ => None,
    }
}

/// Whether piece `j`, among the first `n`, is the last to set the top-level
/// key `k`, and sets it to the scalar `v`.
pub open spec fn last_writer(pieces: Seq<Doc>, n: int, j: int, k: Seq<char>, v: Doc) -> bool {
    &&& 0 <= j < n
    &&& is_scalar(v)
    &&& piece_value(pieces[j], k) == Some(v)
    &&& forall|l: int| j < l < n ==> !(#[trigger] has_key(pieces[l], k))
}

/// Whether the members, descended through objects along the path, end at a
/// leaf holding `v`.
spec fn tree_holds(ms: Seq<(String, Node)>, p: Seq<Seq<char>>, v: Doc) -> bool
    decreases p.len(), 1nat,
{
    p.len() > 0 && exists|i: int| 0 <= i < ms.len() && (#[trigger] ms[i]).0@ == p[0] && node_holds(
        ms[i].1,
        p.skip(1),
        v,
    )
}

/// Whether a node, descended through objects along the path, ends at a leaf
/// holding `v`.
spec fn node_holds(n: Node, p: Seq<Seq<char>>, v: Doc) -> bool
    decreases p.len(), 2nat,
{
    if p.len() == 0 {
        n matches Node::Leaf { value, .. } && value == v
    } else {
        n matches Node::Object { members, .. } && tree_holds(members@, p, v)
    }
}

proof fn lemma_tree_push(ms: Seq<(String, Node)>, entry: (String, Node), p: Seq<Seq<char>>, v: Doc)
    requires
        p.len() > 0,
        entry.0@ != p[0],
    ensures
        tree_holds(ms.push(entry), p, v) == tree_holds(ms, p, v),
{
    let longer = ms.push(entry);
    if tree_holds(longer, p, v) {
        let i = choose|i: int| 0 <= i < longer.len() && (#[trigger] longer[i]).0@ == p[0] && node_holds(
            longer[i].1,
            p.skip(1),
            v,
        );
        assert(i < ms.len());
        assert(longer[i] == ms[i]);
    }
    if tree_holds(ms, p, v) {
        let i = choose|i: int| 0 <= i < ms.len() && (#[trigger] ms[i]).0@ == p[0] && node_holds(ms[i].1, p.skip(1), v);
        assert(longer[i] == ms[i]);
    }
}

proof fn lemma_tree_push_key(ms: Seq<(String, Node)>, entry: (String, Node), p: Seq<Seq<char>>, v: Doc)
    requires
        p.len() > 0,
        entry.0@ == p[0],
        forall|i: int| 0 <= i < ms.len() ==> (#[trigger] ms[i]).0@ != p[0],
    ensures
        tree_holds(ms.push(entry), p, v) == node_holds(entry.1, p.skip(1), v),
{
    let longer = ms.push(entry);
    if tree_holds(longer, p, v) {
        let i = choose|i: int| 0 <= i < longer.len() && (#[trigger] longer[i]).0@ == p[0] && node_holds(
            longer[i].1,
            p.skip(1),
            v,
        );
        if i < ms.len() {
            assert(longer[i] == ms[i]);
        }
    }
    if node_holds(entry.1, p.skip(1), v) {
        assert(longer[ms.len() as int] == entry);
    }
}

proof fn lemma_tree_update(ms: Seq<(String, Node)>, at: int, entry: (String, Node), p: Seq<Seq<char>>, v: Doc)
    requires
        0 <= at < ms.len(),
        p.len() > 0,
        entry.0 == ms[at].0,
        ms[at].0@ == p[0] ==> (node_holds(entry.1, p.skip(1), v) <==> node_holds(ms[at].1, p.skip(1), v)),
    ensures
        tree_holds(ms.update(at, entry), p, v) == tree_holds(ms, p, v),
{
    let changed = ms.update(at, entry);
    if tree_holds(changed, p, v) {
        let i = choose|i: int| 0 <= i < changed.len() && (#[trigger] changed[i]).0@ == p[0] && node_holds(
            changed[i].1,
            p.skip(1),
            v,
        );
        if i != at {
            assert(changed[i] == ms[i]);
        }
    }
    if tree_holds(ms, p, v) {
        let i = choose|i: int| 0 <= i < ms.len() && (#[trigger] ms[i]).0@ == p[0] && node_holds(ms[i].1, p.skip(1), v);
        if i != at {
            assert(changed[i] == ms[i]);
        } else {
            assert(changed[at] == entry);
        }
    }
}

/// Whether one of the first `n` entries has the key `p[0]` and a value
/// spelling the scalar `v` along the rest of the path.
spec fn written_before(e: Seq<(Doc, Doc)>, n: int, p: Seq<Seq<char>>, v: Doc) -> bool {
    is_scalar(v) && p.len() > 0 && exists|j: int| 0 <= j < n && #[trigger] key_text(e[j].0) == p[0] && path_value(
        e[j].1,
        p.skip(1),
    ) == Some(v)
}

/// Whether one of the first `n` entries has the key `p[0]` and a value with
/// something other than an object along the rest of the path.
spec fn leafed_before(e: Seq<(Doc, Doc)>, n: int, p: Seq<Seq<char>>) -> bool {
    p.len() > 0 && exists|j: int| 0 <= j < n && #[trigger] key_text(e[j].0) == p[0] && leaf_at(e[j].1, p.skip(1))
}

/// Whether one of the first `n` entries has the key `p[0]` and a value with
/// an object (`b`) or anything else (`!b`) along the rest of the path.
spec fn shaped_before(e: Seq<(Doc, Doc)>, n: int, p: Seq<Seq<char>>, b: bool) -> bool {
    exists|j: int| 0 <= j < n && #[trigger] key_text(e[j].0) == p[0] && doc_is(e[j].1, p.skip(1), b)
}

/// Whether one of the first `n` entries has the key `p[0]` and a value that
/// has something along the rest of the path.
spec fn touched_before(e: Seq<(Doc, Doc)>, n: int, p: Seq<Seq<char>>) -> bool {
    exists|j: int| 0 <= j < n && #[trigger] key_text(e[j].0) == p[0] && path_value(e[j].1, p.skip(1)) is Some
}

/// Whether piece `j`, among the first `n`, spells the scalar `v` at the
/// path `p`, and no later piece has anything at that path.
pub open spec fn last_path_writer(pieces: Seq<Doc>, n: int, j: int, p: Seq<Seq<char>>, v: Doc) -> bool {
    &&& 0 <= j < n
    &&& is_scalar(v)
    &&& p.len() > 0
    &&& path_value(pieces[j], p) == Some(v)
    &&& forall|l: int| j < l < n ==> (#[trigger] path_value(pieces[l], p)) is None
}

/// Whether every piece lists each key once in every object it holds.
pub open spec fn pieces_distinct(pieces: Seq<Doc>) -> bool {
    forall|i: int| 0 <= i < pieces.len() ==> deep_distinct(#[trigger] pieces[i])
}

/// Whether the members, descended through objects along the path, end at an
/// object (`b`) or at a leaf (`!b`).
spec fn tree_is(ms: Seq<(String, Node)>, p: Seq<Seq<char>>, b: bool) -> bool
    decreases p.len(), 1nat,
{
    p.len() > 0 && exists|i: int| 0 <= i < ms.len() && (#[trigger] ms[i]).0@ == p[0] && node_is(ms[i].1, p.skip(1), b)
}

/// Whether a node, descended through objects along the path, ends at an
/// object (`b`) or at a leaf (`!b`).
spec fn node_is(n: Node, p: Seq<Seq<char>>, b: bool) -> bool
    decreases p.len(), 2nat,
{
    if p.len() == 0 {
        (n is Object) == b
    } else {
        n matches Node::Object { members, .. } && tree_is(members@, p, b)
    }
}

/// Whether a document has something at the path: an object (`b`) or
/// anything else (`!b`).
pub open spec fn doc_is(d: Doc, p: Seq<Seq<char>>, b: bool) -> bool {
    path_value(d, p) matches Some(x) && (x is Mapping) == b
}

/// Whether a node and a value disagree, at some path, on whether what is
/// there is an object.
spec fn clash_node(n: Node, value: Doc) -> bool {
    exists|q: Seq<Seq<char>>, b: bool| #[trigger] node_is(n, q, b) && doc_is(value, q, !b)
}

/// Whether members and a document disagree, at some path, on whether what
/// is there is an object.
spec fn clash(ms: Seq<(String, Node)>, d: Doc) -> bool {
    exists|p: Seq<Seq<char>>, b: bool| #[trigger] tree_is(ms, p, b) && doc_is(d, p, !b)
}

/// Whether the member under `k` disagrees with `value` at some path on
/// whether what is there is an object.
spec fn member_clash(ms: Seq<(String, Node)>, k: Seq<char>, value: Doc) -> bool {
    exists|i: int| 0 <= i < ms.len() && (#[trigger] ms[i]).0@ == k && clash_node(ms[i].1, value)
}

/// A member under `k` clashes with a value exactly when the members, read
/// below `k`, clash with it.
proof fn lemma_member_clash(ms: Seq<(String, Node)>, k: Seq<char>, value: Doc)
    ensures
        member_clash(ms, k, value) <==> exists|q: Seq<Seq<char>>, b: bool| #[trigger] tree_is(ms, seq![k] + q, b)
            && doc_is(value, q, !b),
{
    if member_clash(ms, k, value) {
        let i = choose|i: int| 0 <= i < ms.len() && (#[trigger] ms[i]).0@ == k && clash_node(ms[i].1, value);
        let (q, b) = choose|q: Seq<Seq<char>>, b: bool| #[trigger] node_is(ms[i].1, q, b) && doc_is(value, q, !b);
        assert((seq![k] + q).skip(1) =~= q);
        assert(tree_is(ms, seq![k] + q, b));
    }
    if exists|q: Seq<Seq<char>>, b: bool| #[trigger] tree_is(ms, seq![k] + q, b) && doc_is(value, q, !b) {
        let (q, b) = choose|q: Seq<Seq<char>>, b: bool| #[trigger] tree_is(ms, seq![k] + q, b) && doc_is(value, q, !b);
        let p = seq![k] + q;
        assert(p.skip(1) =~= q);
        let i = choose|i: int| 0 <= i < ms.len() && (#[trigger] ms[i]).0@ == p[0] && node_is(ms[i].1, p.skip(1), b);
        assert(clash_node(ms[i].1, value));
    }
}

/// With distinct keys, the member under a key clashes exactly when its node does.
proof fn lemma_member_clash_at(ms: Seq<(String, Node)>, at: int, value: Doc)
    requires
        distinct_members(ms),
        0 <= at < ms.len(),
    ensures
        member_clash(ms, ms[at].0@, value) == clash_node(ms[at].1, value),
{
    if member_clash(ms, ms[at].0@, value) {
        let i = choose|i: int| 0 <= i < ms.len() && (#[trigger] ms[i]).0@ == ms[at].0@ && clash_node(ms[i].1, value);
        if i != at {
            assert(ms[i].0@ != ms[at].0@);
        }
    }
}

/// Appending a new key's node: paths under the key read as the node does,
/// every other path as before.
proof fn lemma_shapes_push(ms: Seq<(String, Node)>, entry: (String, Node), value: Doc)
    requires
        forall|i: int| 0 <= i < ms.len() ==> (#[trigger] ms[i]).0@ != entry.0@,
        shapes_node(value, entry.1, None),
    ensures
        forall|p: Seq<Seq<char>>, b: bool| p.len() > 0 ==> (#[trigger] tree_is(ms.push(entry), p, b) <==> (if p[0]
            == entry.0@ && path_value(value, p.skip(1)) is Some {
            doc_is(value, p.skip(1), b)
        } else {
            tree_is(ms, p, b)
        })),
{
    assert forall|p: Seq<Seq<char>>, b: bool| p.len() > 0 implies (#[trigger] tree_is(ms.push(entry), p, b) <==> (if p[0]
        == entry.0@ && path_value(value, p.skip(1)) is Some {
        doc_is(value, p.skip(1), b)
    } else {
        tree_is(ms, p, b)
    })) by {
        if p[0] == entry.0@ {
            lemma_kind_push_key(ms, entry, p, b);
            assert(node_is(entry.1, p.skip(1), b) <==> (if path_value(value, p.skip(1)) is Some {
                doc_is(value, p.skip(1), b)
            } else {
                None::<Node> matches Some(o) && node_is(o, p.skip(1), b)
            }));
        } else {
            lemma_kind_push(ms, entry, p, b);
        }
    }
}

/// Replacing the node under an existing key: paths under the key read as
/// the new node does, every other path as before.
proof fn lemma_shapes_update(ms: Seq<(String, Node)>, at: int, entry: (String, Node), value: Doc)
    requires
        0 <= at < ms.len(),
        entry.0 == ms[at].0,
        distinct_members(ms),
        shapes_node(value, entry.1, Some(ms[at].1)),
    ensures
        forall|p: Seq<Seq<char>>, b: bool| p.len() > 0 ==> (#[trigger] tree_is(ms.update(at, entry), p, b) <==> (if p[0]
            == entry.0@ && path_value(value, p.skip(1)) is Some {
            doc_is(value, p.skip(1), b)
        } else {
            tree_is(ms, p, b)
        })),
{
    assert forall|p: Seq<Seq<char>>, b: bool| p.len() > 0 implies (#[trigger] tree_is(ms.update(at, entry), p, b) <==> (
    if p[0] == entry.0@ && path_value(value, p.skip(1)) is Some {
        doc_is(value, p.skip(1), b)
    } else {
        tree_is(ms, p, b)
    })) by {
        lemma_kind_update(ms, at, entry, p, b);
        if p[0] == entry.0@ {
            assert(node_is(entry.1, p.skip(1), b) <==> (if path_value(value, p.skip(1)) is Some {
                doc_is(value, p.skip(1), b)
            } else {
                Some(ms[at].1) matches Some(o) && node_is(o, p.skip(1), b)
            }));
        }
    }
}

/// Whether a node holds, along every path, what the value spells there, and
/// elsewhere what the node it replaced held.
spec fn shapes_node(value: Doc, n: Node, previous: Option<Node>) -> bool {
    forall|q: Seq<Seq<char>>, b: bool| #[trigger] node_is(n, q, b) <==> (if path_value(value, q) is Some {
        doc_is(value, q, b)
    } else {
        previous matches Some(o) && node_is(o, q, b)
    })
}

/// What the last of the first `n` pieces to have something at `p` has there:
/// an object (`true`) or anything else.
pub open spec fn kind_last(pieces: Seq<Doc>, n: int, p: Seq<Seq<char>>) -> Option<bool>
    decreases n,
{
    if n <= 0 {
        None
    } else if path_value(pieces[n - 1], p) is Some {
        Some(path_value(pieces[n - 1], p).unwrap() is Mapping)
    } else {
        kind_last(pieces, n - 1, p)
    }
}

/// Whether no two of the first `n` pieces disagree, at any path, on whether
/// what is there is an object.
pub open spec fn no_conflict(pieces: Seq<Doc>, n: int) -> bool {
    forall|i: int, j: int, p: Seq<Seq<char>>, bi: bool, bj: bool|
        #![trigger doc_is(pieces[i], p, bi), doc_is(pieces[j], p, bj)]
        0 <= i < j < n && doc_is(pieces[i], p, bi) && doc_is(pieces[j], p, bj) ==> bi == bj
}

proof fn lemma_kind_push(ms: Seq<(String, Node)>, entry: (String, Node), p: Seq<Seq<char>>, b: bool)
    requires
        p.len() > 0,
        entry.0@ != p[0],
    ensures
        tree_is(ms.push(entry), p, b) == tree_is(ms, p, b),
{
    let longer = ms.push(entry);
    if tree_is(longer, p, b) {
        let i = choose|i: int| 0 <= i < longer.len() && (#[trigger] longer[i]).0@ == p[0] && node_is(
            longer[i].1,
            p.skip(1),
            b,
        );
        assert(longer[i] == ms[i]);
    }
    if tree_is(ms, p, b) {
        let i = choose|i: int| 0 <= i < ms.len() && (#[trigger] ms[i]).0@ == p[0] && node_is(ms[i].1, p.skip(1), b);
        assert(longer[i] == ms[i]);
    }
}

proof fn lemma_kind_push_key(ms: Seq<(String, Node)>, entry: (String, Node), p: Seq<Seq<char>>, b: bool)
    requires
        p.len() > 0,
        entry.0@ == p[0],
        forall|i: int| 0 <= i < ms.len() ==> (#[trigger] ms[i]).0@ != p[0],
    ensures
        tree_is(ms.push(entry), p, b) == node_is(entry.1, p.skip(1), b),
        !tree_is(ms, p, b),
{
    let longer = ms.push(entry);
    if tree_is(longer, p, b) {
        let i = choose|i: int| 0 <= i < longer.len() && (#[trigger] longer[i]).0@ == p[0] && node_is(
            longer[i].1,
            p.skip(1),
            b,
        );
        if i < ms.len() {
            assert(longer[i] == ms[i]);
        }
    }
    if node_is(entry.1, p.skip(1), b) {
        assert(longer[ms.len() as int] == entry);
    }
}

proof fn lemma_kind_update(ms: Seq<(String, Node)>, at: int, entry: (String, Node), p: Seq<Seq<char>>, b: bool)
    requires
        0 <= at < ms.len(),
        p.len() > 0,
        entry.0 == ms[at].0,
        distinct_members(ms),
    ensures
        tree_is(ms.update(at, entry), p, b) == (if ms[at].0@ == p[0] {
            node_is(entry.1, p.skip(1), b)
        } else {
            tree_is(ms, p, b)
        }),
        ms[at].0@ == p[0] ==> (tree_is(ms, p, b) == node_is(ms[at].1, p.skip(1), b)),
{
    let changed = ms.update(at, entry);
    if tree_is(changed, p, b) {
        let i = choose|i: int| 0 <= i < changed.len() && (#[trigger] changed[i]).0@ == p[0] && node_is(
            changed[i].1,
            p.skip(1),
            b,
        );
        if i != at {
            assert(changed[i] == ms[i]);
        }
    }
    if tree_is(ms, p, b) {
        let i = choose|i: int| 0 <= i < ms.len() && (#[trigger] ms[i]).0@ == p[0] && node_is(ms[i].1, p.skip(1), b);
        if i != at {
            assert(changed[i] == ms[i]);
        }
    }
    if ms[at].0@ == p[0] && node_is(entry.1, p.skip(1), b) {
        assert(changed[at] == entry);
    }
}

/// A kind the last writer gave a path was given by some piece before `n`.
proof fn lemma_kind_last_some(pieces: Seq<Doc>, n: int, p: Seq<Seq<char>>, b: bool)
    requires
        kind_last(pieces, n, p) == Some(b),
    ensures
        exists|i: int| 0 <= i < n && #[trigger] doc_is(pieces[i], p, b),
    decreases n,
{
    if path_value(pieces[n - 1], p) is Some {
        assert(doc_is(pieces[n - 1], p, b));
    } else {
        lemma_kind_last_some(pieces, n - 1, p, b);
        let i = choose|i: int| 0 <= i < n - 1 && #[trigger] doc_is(pieces[i], p, b);
        assert(doc_is(pieces[i], p, b));
    }
}

/// A path some piece before `n` has has a kind from its last writer.
proof fn lemma_kind_last_defined(pieces: Seq<Doc>, n: int, p: Seq<Seq<char>>, i: int)
    requires
        0 <= i < n,
        path_value(pieces[i], p) is Some,
    ensures
        kind_last(pieces, n, p) is Some,
    decreases n,
{
    if path_value(pieces[n - 1], p) is None {
        lemma_kind_last_defined(pieces, n - 1, p, i);
    }
}

/// Whether the members, descended through objects along the path, end at a
/// leaf holding a list.
spec fn reaches_list(ms: Seq<(String, Node)>, p: Seq<Seq<char>>) -> bool {
    exists|v: Doc| v is List && #[trigger] tree_holds(ms, p, v)
}

/// Whether the members, descended through objects along the path, end at a
/// leaf whose provenance names piece `j` as its winner.
spec fn tree_from(ms: Seq<(String, Node)>, p: Seq<Seq<char>>, j: usize) -> bool
    decreases p.len(), 1nat,
{
    p.len() > 0 && exists|i: int| 0 <= i < ms.len() && (#[trigger] ms[i]).0@ == p[0] && node_from(
        ms[i].1,
        p.skip(1),
        j,
    )
}

/// Whether a node, descended through objects along the path, ends at a leaf
/// whose provenance names piece `j` as its winner.
spec fn node_from(n: Node, p: Seq<Seq<char>>, j: usize) -> bool
    decreases p.len(), 2nat,
{
    if p.len() == 0 {
        n matches Node::Leaf { provenance, .. } && provenance.piece == j
    } else {
        n matches Node::Object { members, .. } && tree_from(members@, p, j)
    }
}

/// Whether a value has something other than an object at the path.
pub open spec fn leaf_at(value: Doc, p: Seq<Seq<char>>) -> bool {
    path_value(value, p) matches Some(x) && !(x is Mapping)
}

/// Whether piece `j`, among the first `n`, has something other than an
/// object at the path `p`, and no later piece has anything there.
pub open spec fn last_leaf_writer(pieces: Seq<Doc>, n: int, j: int, p: Seq<Seq<char>>) -> bool {
    &&& 0 <= j < n
    &&& p.len() > 0
    &&& leaf_at(pieces[j], p)
    &&& forall|l: int| j < l < n ==> (#[trigger] path_value(pieces[l], p)) is None
}

proof fn lemma_from_push(ms: Seq<(String, Node)>, entry: (String, Node), p: Seq<Seq<char>>, j: usize)
    requires
        p.len() > 0,
        entry.0@ != p[0],
    ensures
        tree_from(ms.push(entry), p, j) == tree_from(ms, p, j),
{
    let longer = ms.push(entry);
    if tree_from(longer, p, j) {
        let i = choose|i: int| 0 <= i < longer.len() && (#[trigger] longer[i]).0@ == p[0] && node_from(
            longer[i].1,
            p.skip(1),
            j,
        );
        assert(longer[i] == ms[i]);
    }
    if tree_from(ms, p, j) {
        let i = choose|i: int| 0 <= i < ms.len() && (#[trigger] ms[i]).0@ == p[0] && node_from(ms[i].1, p.skip(1), j);
        assert(longer[i] == ms[i]);
    }
}

proof fn lemma_from_push_key(ms: Seq<(String, Node)>, entry: (String, Node), p: Seq<Seq<char>>, j: usize)
    requires
        p.len() > 0,
        entry.0@ == p[0],
        forall|i: int| 0 <= i < ms.len() ==> (#[trigger] ms[i]).0@ != p[0],
    ensures
        tree_from(ms.push(entry), p, j) == node_from(entry.1, p.skip(1), j),
        !tree_from(ms, p, j),
{
    let longer = ms.push(entry);
    if tree_from(longer, p, j) {
        let i = choose|i: int| 0 <= i < longer.len() && (#[trigger] longer[i]).0@ == p[0] && node_from(
            longer[i].1,
            p.skip(1),
            j,
        );
        if i < ms.len() {
            assert(longer[i] == ms[i]);
        }
    }
    if node_from(entry.1, p.skip(1), j) {
        assert(longer[ms.len() as int] == entry);
    }
}

proof fn lemma_from_update(ms: Seq<(String, Node)>, at: int, entry: (String, Node), p: Seq<Seq<char>>, j: usize)
    requires
        0 <= at < ms.len(),
        p.len() > 0,
        entry.0 == ms[at].0,
        ms[at].0@ == p[0] ==> (node_from(entry.1, p.skip(1), j) <==> node_from(ms[at].1, p.skip(1), j)),
    ensures
        tree_from(ms.update(at, entry), p, j) == tree_from(ms, p, j),
{
    let changed = ms.update(at, entry);
    if tree_from(changed, p, j) {
        let i = choose|i: int| 0 <= i < changed.len() && (#[trigger] changed[i]).0@ == p[0] && node_from(
            changed[i].1,
            p.skip(1),
            j,
        );
        if i != at {
            assert(changed[i] == ms[i]);
        }
    }
    if tree_from(ms, p, j) {
        let i = choose|i: int| 0 <= i < ms.len() && (#[trigger] ms[i]).0@ == p[0] && node_from(ms[i].1, p.skip(1), j);
        if i != at {
            assert(changed[i] == ms[i]);
        } else {
            assert(changed[at] == entry);
        }
    }
}

/// A path whose provenance names a winner ends at a leaf, which holds
/// something other than an object.
proof fn lemma_from_holds(ms: Seq<(String, Node)>, p: Seq<Seq<char>>, j: usize, pieces: int)
    requires
        members_ok(ms, pieces),
        tree_from(ms, p, j),
    ensures
        exists|v: Doc| #[trigger] tree_holds(ms, p, v) && !(v is Mapping),
    decreases p.len(),
{
    let i = choose|i: int| 0 <= i < ms.len() && (#[trigger] ms[i]).0@ == p[0] && node_from(ms[i].1, p.skip(1), j);
    assert(node_ok(ms[i].1, pieces));
    match ms[i].1 {
        Node::Leaf { value, .. } => {
            assert(node_holds(ms[i].1, p.skip(1), value));
            assert(tree_holds(ms, p, value));
        },
        Node::Object { members, .. } => {
            lemma_from_holds(members@, p.skip(1), j, pieces);
            let v = choose|v: Doc| #[trigger] tree_holds(members@, p.skip(1), v) && !(v is Mapping);
            assert(node_holds(ms[i].1, p.skip(1), v));
            assert(tree_holds(ms, p, v));
        },
    }
}

/// The contents of the array a document has at a path, when it has one.
pub open spec fn list_at(d: Doc, p: Seq<Seq<char>>) -> Option<Seq<DocView>> {
    match path_value(d, p) {
        Some(Doc::List(items)) => Some(views(items@)),
        _ => None,
    }
}

/// The strategy the table declares at the pointer text `t`, if any.
pub open spec fn row_strategy(rows: Seq<(Seq<char>, (bool, Seq<char>))>, t: Seq<char>) -> Option<(bool, Seq<char>)> {
    if exists|i: int| 0 <= i < rows.len() && #[trigger] rows[i].0 == t {
        Some(rows[choose|i: int| 0 <= i < rows.len() && #[trigger] rows[i].0 == t].1)
    } else {
        None
    }
}

/// In a table ordered by pointer, the strategy declared at a row's pointer is
/// that row's.
proof fn lemma_row_strategy(rows: Seq<(Seq<char>, (bool, Seq<char>))>, k: int)
    requires
        ascending(rows),
        0 <= k < rows.len(),
    ensures
        row_strategy(rows, rows[k].0) == Some(rows[k].1),
{
    let t = rows[k].0;
    assert forall|i: int| 0 <= i < rows.len() && #[trigger] rows[i].0 == t implies i == k by {
        if i != k {
            crate::doc::lemma_text_order_total(rows[i].0, rows[k].0);
            if i < k {
                assert(text_less(rows[i].0, rows[k].0));
            } else {
                assert(text_less(rows[k].0, rows[i].0));
            }
        }
    }
    assert(exists|i: int| 0 <= i < rows.len() && #[trigger] rows[i].0 == t);
}

/// What the strategy declared at the pointer text `t` makes of an earlier
/// array's contents and an arriving array's.
pub open spec fn combined_at(rows: Seq<(Seq<char>, (bool, Seq<char>))>, t: Seq<char>, l: Seq<DocView>, items: Seq<DocView>) -> Option<
    Seq<DocView>,
> {
    match row_strategy(rows, t) {
        Some(s) => combine(s, l, items),
        None => None,
    }
}

/// Whether the members reach, along the path, a leaf holding an array with
/// the contents `l`.
spec fn holds_list(ms: Seq<(String, Node)>, p: Seq<Seq<char>>, l: Seq<DocView>) -> bool {
    exists|v: Doc| #[trigger] tree_holds(ms, p, v) && doc_view(v) == DocView::List(l)
}

/// Whether the members reach, along the path, a leaf holding an array.
spec fn holds_some_list(ms: Seq<(String, Node)>, p: Seq<Seq<char>>) -> bool {
    exists|v: Doc| #[trigger] tree_holds(ms, p, v) && v is List
}

/// Whether a node reaches, along the path, a leaf holding an array with the
/// contents `l`.
spec fn node_list(n: Node, p: Seq<Seq<char>>, l: Seq<DocView>) -> bool {
    exists|v: Doc| #[trigger] node_holds(n, p, v) && doc_view(v) == DocView::List(l)
}

/// Whether a node, if there is one, reaches along the path a leaf holding an
/// array with the contents `l`.
spec fn node_list_opt(n: Option<Node>, p: Seq<Seq<char>>, l: Seq<DocView>) -> bool {
    n matches Some(x) && node_list(x, p, l)
}

/// Whether there are contents `o`, and the members reach them along the
/// path.
spec fn holds_list_in(ms: Seq<(String, Node)>, p: Seq<Seq<char>>, o: Option<Seq<DocView>>) -> bool {
    o matches Some(l) && holds_list(ms, p, l)
}

/// Whether there are contents `o`, and a node reaches them along the path.
spec fn node_list_in(n: Node, p: Seq<Seq<char>>, o: Option<Seq<DocView>>) -> bool {
    o matches Some(l) && node_list(n, p, l)
}

/// Whether a node, if there is one, reaches along the path a leaf holding an
/// array.
spec fn node_some_list(n: Option<Node>, p: Seq<Seq<char>>) -> bool {
    n matches Some(x) && exists|v: Doc| #[trigger] node_holds(x, p, v) && v is List
}

/// How writing `value` at a member turns the node that was there into the
/// next one, for arrays: under a declared strategy an earlier array and the
/// written one combine, and with no earlier array the written one is taken.
spec fn lists_carried(old: Option<Node>, next: Node, value: Doc, rows: Seq<(Seq<char>, (bool, Seq<char>))>, base: Seq<Seq<char>>) -> bool {
    &&& forall|q: Seq<Seq<char>>, l: Seq<DocView>| row_strategy(rows, encode(base + q)) is Some && list_at(value, q) is Some
        && #[trigger] node_list_opt(old, q, l) ==> node_list_in(
        next,
        q,
        combined_at(rows, encode(base + q), l, list_at(value, q)->0),
    )
    &&& forall|q: Seq<Seq<char>>| #[trigger] list_at(value, q) is Some && !node_some_list(old, q) ==> node_list(
        next,
        q,
        list_at(value, q)->0,
    )
}

/// The array facts a member write leaves in the members, read through the
/// written key.
spec fn lists_lifted(
    start: Seq<(String, Node)>,
    ms: Seq<(String, Node)>,
    key: Seq<char>,
    value: Doc,
    rows: Seq<(Seq<char>, (bool, Seq<char>))>,
    base: Seq<Seq<char>>,
) -> bool {
    &&& forall|q: Seq<Seq<char>>, l: Seq<DocView>| row_strategy(rows, encode(base + q)) is Some && list_at(value, q) is Some
        && #[trigger] holds_list(start, seq![key] + q, l) ==> holds_list_in(
        ms,
        seq![key] + q,
        combined_at(rows, encode(base + q), l, list_at(value, q)->0),
    )
    &&& forall|q: Seq<Seq<char>>| #[trigger] list_at(value, q) is Some && !holds_some_list(start, seq![key] + q)
        ==> holds_list(ms, seq![key] + q, list_at(value, q)->0)
}

proof fn lemma_lift_push(
    start: Seq<(String, Node)>,
    entry: (String, Node),
    value: Doc,
    rows: Seq<(Seq<char>, (bool, Seq<char>))>,
    base: Seq<Seq<char>>,
)
    requires
        forall|i: int| 0 <= i < start.len() ==> (#[trigger] start[i]).0@ != entry.0@,
        lists_carried(None, entry.1, value, rows, base),
    ensures
        lists_lifted(start, start.push(entry), entry.0@, value, rows, base),
{
    let key = entry.0@;
    let ms = start.push(entry);
    assert forall|q: Seq<Seq<char>>, l: Seq<DocView>| row_strategy(rows, encode(base + q)) is Some && list_at(value, q) is Some
        && #[trigger] holds_list(start, seq![key] + q, l) implies holds_list_in(
        ms,
        seq![key] + q,
        combined_at(rows, encode(base + q), l, list_at(value, q)->0),
    ) by {
        let v = choose|v: Doc| #[trigger] tree_holds(start, seq![key] + q, v) && doc_view(v) == DocView::List(l);
        lemma_tree_absent(start, key, q, v);
    }
    assert forall|q: Seq<Seq<char>>| #[trigger] list_at(value, q) is Some && !holds_some_list(start, seq![key] + q)
        implies holds_list(ms, seq![key] + q, list_at(value, q)->0) by {
        assert(!node_some_list(None, q));
        let v = choose|v: Doc| #[trigger] node_holds(entry.1, q, v) && doc_view(v) == DocView::List(list_at(value, q)->0);
        let p = seq![key] + q;
        assert(p.skip(1) =~= q);
        lemma_tree_push_key(start, entry, p, v);
        assert(tree_holds(ms, p, v));
    }
}

proof fn lemma_lift_update(
    before: Seq<(String, Node)>,
    at: int,
    entry: (String, Node),
    value: Doc,
    rows: Seq<(Seq<char>, (bool, Seq<char>))>,
    base: Seq<Seq<char>>,
)
    requires
        distinct_members(before),
        0 <= at < before.len(),
        entry.0 == before[at].0,
        lists_carried(Some(before[at].1), entry.1, value, rows, base),
    ensures
        lists_lifted(before, before.update(at, entry), entry.0@, value, rows, base),
{
    let key = entry.0@;
    let ms = before.update(at, entry);
    assert(distinct_members(ms)) by {
        assert forall|a: int, b: int| 0 <= a < b < ms.len() implies (#[trigger] ms[a]).0@ != (#[trigger] ms[b]).0@ by {
            assert(ms[a].0 == before[a].0);
            assert(ms[b].0 == before[b].0);
        }
    }
    assert(ms[at] == entry);
    assert forall|q: Seq<Seq<char>>, l: Seq<DocView>| row_strategy(rows, encode(base + q)) is Some && list_at(value, q) is Some
        && #[trigger] holds_list(before, seq![key] + q, l) implies holds_list_in(
        ms,
        seq![key] + q,
        combined_at(rows, encode(base + q), l, list_at(value, q)->0),
    ) by {
        let v = choose|v: Doc| #[trigger] tree_holds(before, seq![key] + q, v) && doc_view(v) == DocView::List(l);
        lemma_tree_at(before, at, q, v);
        assert(node_list(before[at].1, q, l));
        assert(node_list_opt(Some(before[at].1), q, l));
        let c = combined_at(rows, encode(base + q), l, list_at(value, q)->0)->0;
        let w = choose|w: Doc| #[trigger] node_holds(entry.1, q, w) && doc_view(w) == DocView::List(c);
        lemma_tree_at(ms, at, q, w);
    }
    assert forall|q: Seq<Seq<char>>| #[trigger] list_at(value, q) is Some && !holds_some_list(before, seq![key] + q)
        implies holds_list(ms, seq![key] + q, list_at(value, q)->0) by {
        assert(!node_some_list(Some(before[at].1), q)) by {
            if node_some_list(Some(before[at].1), q) {
                let v = choose|v: Doc| #[trigger] node_holds(before[at].1, q, v) && v is List;
                lemma_tree_at(before, at, q, v);
            }
        }
        let w = choose|w: Doc| #[trigger] node_holds(entry.1, q, w) && doc_view(w) == DocView::List(list_at(value, q)->0);
        lemma_tree_at(ms, at, q, w);
    }
}

proof fn lemma_list_view(items: Vec<Doc>)
    ensures
        doc_view(Doc::List(items)) == DocView::List(views(items@)),
{
    assert(doc_view(Doc::List(items))->List_0 =~= views(items@));
}

/// With distinct names, a path through a member reads that member alone.
proof fn lemma_tree_at(ms: Seq<(String, Node)>, at: int, q: Seq<Seq<char>>, v: Doc)
    requires
        distinct_members(ms),
        0 <= at < ms.len(),
    ensures
        tree_holds(ms, seq![ms[at].0@] + q, v) == node_holds(ms[at].1, q, v),
{
    let p = seq![ms[at].0@] + q;
    assert(p.skip(1) =~= q);
    if tree_holds(ms, p, v) {
        let i = choose|i: int| 0 <= i < ms.len() && (#[trigger] ms[i]).0@ == p[0] && node_holds(ms[i].1, p.skip(1), v);
        if i != at {
            if i < at {
                assert(ms[i].0@ != ms[at].0@);
            } else {
                assert(ms[at].0@ != ms[i].0@);
            }
        }
    }
    if node_holds(ms[at].1, q, v) {
        assert(ms[at].0@ == p[0]);
    }
}

/// A path whose first name no member carries reaches nothing.
proof fn lemma_tree_absent(ms: Seq<(String, Node)>, k: Seq<char>, q: Seq<Seq<char>>, v: Doc)
    requires
        forall|i: int| 0 <= i < ms.len() ==> (#[trigger] ms[i]).0@ != k,
    ensures
        !tree_holds(ms, seq![k] + q, v),
{
    let p = seq![k] + q;
    if tree_holds(ms, p, v) {
        let i = choose|i: int| 0 <= i < ms.len() && (#[trigger] ms[i]).0@ == p[0] && node_holds(ms[i].1, p.skip(1), v);
    }
}

/// The contents of the array at a path after the first `n` pieces under the
/// strategy `s`: the first array written there is taken, and each later one
/// combines with it in layer order; nothing when the last piece to write
/// there wrote something other than an array, when none wrote there, or
/// when the strategy cannot combine them.
pub open spec fn declared_fold(pieces: Seq<Doc>, n: int, p: Seq<Seq<char>>, s: (bool, Seq<char>)) -> Option<
    Seq<DocView>,
>
    decreases n,
{
    if n <= 0 {
        None
    } else {
        let prev = declared_fold(pieces, n - 1, p, s);
        match path_value(pieces[n - 1], p) {
            None => prev,
            Some(Doc::List(items)) => match prev {
                Some(l) => combine(s, l, views(items@)),
                None => Some(views(items@)),
            },
            Some(_) => None,
        }
    }
}

/// With distinct names at every depth, a path reaches one leaf.
proof fn lemma_tree_functional(ms: Seq<(String, Node)>, p: Seq<Seq<char>>, v: Doc, w: Doc)
    requires
        members_distinct(ms),
        tree_holds(ms, p, v),
        tree_holds(ms, p, w),
    ensures
        v == w,
    decreases p.len(),
{
    let i = choose|i: int| 0 <= i < ms.len() && (#[trigger] ms[i]).0@ == p[0] && node_holds(ms[i].1, p.skip(1), v);
    let j = choose|j: int| 0 <= j < ms.len() && (#[trigger] ms[j]).0@ == p[0] && node_holds(ms[j].1, p.skip(1), w);
    if i != j {
        if i < j {
            assert(ms[i].0@ != ms[j].0@);
        } else {
            assert(ms[j].0@ != ms[i].0@);
        }
    }
    if p.skip(1).len() > 0 {
        assert(node_distinct(ms[i].1));
        if let Node::Object { members, .. } = ms[i].1 {
            lemma_tree_functional(members@, p.skip(1), v, w);
        }
    }
}

/// With distinct names at every depth, a path does not reach both an object
/// and a leaf.
proof fn lemma_tree_object_or_leaf(ms: Seq<(String, Node)>, p: Seq<Seq<char>>, w: Doc)
    requires
        members_distinct(ms),
    ensures
        !(tree_is(ms, p, true) && tree_holds(ms, p, w)),
    decreases p.len(),
{
    if !(tree_is(ms, p, true) && tree_holds(ms, p, w)) {
        return;
    }
    let i = choose|i: int| 0 <= i < ms.len() && (#[trigger] ms[i]).0@ == p[0] && node_is(ms[i].1, p.skip(1), true);
    let j = choose|j: int| 0 <= j < ms.len() && (#[trigger] ms[j]).0@ == p[0] && node_holds(ms[j].1, p.skip(1), w);
    if i != j {
        if i < j {
            assert(ms[i].0@ != ms[j].0@);
        } else {
            assert(ms[j].0@ != ms[i].0@);
        }
    }
    if p.skip(1).len() > 0 {
        assert(node_distinct(ms[i].1));
        if let Node::Object { members, .. } = ms[i].1 {
            lemma_tree_object_or_leaf(members@, p.skip(1), w);
        }
    }
}

/// Whether some entry names the pointer text `t` and has piece `j` as its
/// winner.
pub open spec fn listed(keys: Seq<(Pointer, KeyProvenance)>, t: Seq<char>, j: usize) -> bool {
    exists|k: int| 0 <= k < keys.len() && (#[trigger] keys[k]).0@ == t && keys[k].1.piece == j
}

/// Whether one of the first `n` pieces is an object with the key `k`.
pub open spec fn pieces_keyed(pieces: Seq<Doc>, n: int, k: Seq<char>) -> bool {
    exists|j: int| 0 <= j < n && #[trigger] has_key(pieces[j], k)
}

proof fn lemma_node_ok_grows(n: Node, pieces: int, more: int)
    requires
        node_ok(n, pieces),
        pieces <= more,
    ensures
        node_ok(n, more),
    decreases n,
{
    match n {
        Node::Leaf { .. } => {},
        Node::Object { members, .. } => {
            assert forall|i: int| 0 <= i < members@.len() implies node_ok(#[trigger] members@[i].1, more) by {
                assert(decreases_to!(n => n->Object_members));
                assert(decreases_to!(members => members@));
                assert(decreases_to!(members@ => members@[i]));
                assert(decreases_to!(members@[i] => members@[i].1));
                lemma_node_ok_grows(members@[i].1, pieces, more);
            }
        },
    }
}

fn find_member(members: &Vec<(String, Node)>, key: &str) -> (r: Option<usize>)
    ensures
        r matches Some(i) ==> i < members@.len() && members@[i as int].0@ == key@ && forall|k: int|
            0 <= k < i ==> members@[k].0@ != key@,
        r is None ==> forall|i: int| 0 <= i < members@.len() ==> members@[i].0@ != key@,
        r == match first_member(members@, key@) {
            Some(i) => Some(i as usize),
            None => None::<usize>,
        },
{
    let mut i: usize = 0;
    while i < members.len()
        invariant
            i <= members@.len(),
            forall|k: int| 0 <= k < i ==> members@[k].0@ != key@,
        decreases members.len() - i,
    {
        if same_text(members[i].0.as_str(), key) {
            return Some(i);
        }
        i = i + 1;
    }
    None
}

/// The position of the first member named `k`.
spec fn first_member(ms: Seq<(String, Node)>, k: Seq<char>) -> Option<int> {
    if exists|i: int| 0 <= i < ms.len() && (#[trigger] ms[i]).0@ == k && forall|j: int| 0 <= j < i ==> ms[j].0@ != k {
        Some(choose|i: int| 0 <= i < ms.len() && (#[trigger] ms[i]).0@ == k && forall|j: int| 0 <= j < i ==> ms[j].0@ != k)
    } else {
        None
    }
}

/// The node a non-empty token path reaches, each token naming the first
/// member of that name, through objects only.
spec fn spot_in(ms: Seq<(String, Node)>, p: Seq<Seq<char>>) -> Option<Node>
    decreases p.len(),
{
    if p.len() == 0 {
        None
    } else {
        match first_member(ms, p[0]) {
            None => None,
            Some(i) => if p.len() == 1 {
                Some(ms[i].1)
            } else {
                match ms[i].1 {
                    Node::Object { members, .. } => spot_in(members@, p.skip(1)),
                    Node::Leaf { .. } => None,
                }
            },
        }
    }
}

fn copy_indices(v: &Vec<usize>) -> (r: Vec<usize>)
    ensures
        r@ == v@,
{
    let mut out: Vec<usize> = Vec::new();
    let mut i: usize = 0;
    while i < v.len()
        invariant
            i <= v@.len(),
            out@ == v@.take(i as int),
        decreases v.len() - i,
    {
        out.push(v[i]);
        proof {
            assert(v@.take(i + 1) =~= v@.take(i as int).push(v@[i as int]));
        }
        i = i + 1;
    }
    proof {
        assert(v@.take(v@.len() as int) =~= v@);
    }
    out
}

fn copy_provenance(p: &KeyProvenance) -> (r: KeyProvenance)
    ensures
        r.piece == p.piece,
        r.overrode@ == p.overrode@,
        r.contributors@ == p.contributors@,
        match p.strategy {
            Some(s) => r.strategy matches Some(t) && strategy_view(t) == strategy_view(s),
            None => r.strategy is None,
        },
{
    KeyProvenance {
        piece: p.piece,
        overrode: copy_indices(&p.overrode),
        strategy: match &p.strategy {
            Some(s) => Some(s.duplicate()),
            None => None,
        },
        contributors: copy_indices(&p.contributors),
    }
}

/// Replaces a leaf and records the chain it displaced: the previous winner
/// joins the overridden chain, and a merged array replaced outright loses its
/// contributors and its element origins.
fn override_leaf(provenance: KeyProvenance, piece: usize, incoming: &Doc) -> (r: Node)
    requires
        provenance_ok(provenance, piece + 1),
        !(*incoming is Mapping),
    ensures
        node_ok(r, piece + 1),
        r matches Node::Leaf { provenance: p, origins, .. } && origins is None && p.piece == piece
            && p.strategy is None && p.contributors@.len() == 0
            && p.overrode@ == (if provenance.piece != piece { provenance.overrode@.push(provenance.piece) } else {
                provenance.overrode@
            }),
        is_scalar(*incoming) ==> (r matches Node::Leaf { value, .. } && value == *incoming),
        r matches Node::Leaf { value, .. } && doc_view(value) == doc_view(*incoming),
{
    let mut entry = provenance;
    if entry.piece != piece {
        let previous = entry.piece;
        entry.overrode.push(previous);
    }
    entry.piece = piece;
    entry.strategy = None;
    entry.contributors.clear();
    let r = Node::Leaf { value: copy_doc(incoming), provenance: entry, origins: None };
    proof {
        assert(node_ok(r, piece + 1));
    }
    r
}

fn repeat_index(piece: usize, n: usize) -> (r: Vec<usize>)
    ensures
        r@.len() == n,
        forall|i: int| 0 <= i < n ==> r@[i] == piece,
{
    let mut out: Vec<usize> = Vec::new();
    let mut i: usize = 0;
    while i < n
        invariant
            i <= n,
            out@.len() == i,
            forall|k: int| 0 <= k < i ==> out@[k] == piece,
        decreases n - i,
    {
        out.push(piece);
        i = i + 1;
    }
    out
}

/// The contributors of a merged array after `piece` adds to it: the
/// earlier contributors, or the earlier owner alone, then `piece` unless it
/// is already last.
pub open spec fn next_contributors(c: Seq<usize>, owner: usize, piece: usize) -> Seq<usize> {
    let base = if c.len() == 0 { seq![owner] } else { c };
    if base.last() != piece {
        base.push(piece)
    } else {
        base
    }
}

/// The pieces an array's elements came from: the recorded ones, or else the
/// array's owner for every element.
pub open spec fn element_origins(origins: Option<Vec<usize>>, owner: usize, n: nat) -> Seq<usize> {
    match origins {
        Some(o) => o@,
        None => Seq::new(n, |i: int| owner),
    }
}

/// Applies `concat` or `merge-by-key` to two arrays: the key's contributors
/// gain the arriving piece, and the arriving piece becomes the winner.
fn apply_strategy(
    existing: Vec<Doc>,
    provenance: KeyProvenance,
    origins: Option<Vec<usize>>,
    pointer: &Pointer,
    piece: usize,
    incoming: &Vec<Doc>,
    strategy: &ArrayStrategy,
) -> (r: Result<Node, MergeError>)
    requires
        provenance_ok(provenance, piece + 1),
        origins matches Some(o) ==> forall|i: int| 0 <= i < o@.len() ==> #[trigger] o@[i] < piece + 1,
    ensures
        r matches Ok(n) ==> node_ok(n, piece + 1),
        !(r matches Err(MergeError::NotAnObject { .. })),
        r matches Err(MergeError::TypeConflict { earlier, later, .. }) ==> earlier <= later && later == piece,
        r is Ok ==> (r matches Ok(Node::Leaf { provenance: p, .. }) && p.piece == piece && p.overrode@.len() == 0
            && (p.strategy matches Some(t) && strategy_view(t) == strategy_view(*strategy))
            && p.contributors@.len() > 0 && p.contributors@.last() == piece),
        r matches Ok(Node::Leaf { provenance: p, .. }) ==> p.contributors@ == next_contributors(
            provenance.contributors@,
            provenance.piece,
            piece,
        ),
        r matches Ok(Node::Leaf { value, .. }) ==> value is List && combine(
            strategy_view(*strategy),
            views(existing@),
            views(incoming@),
        ) == Some(doc_view(value)->List_0),
        ({
            let eo = element_origins(origins, provenance.piece, existing@.len());
            match *strategy {
                ArrayStrategy::Concat => r matches Ok(Node::Leaf { value, origins: Some(o), .. }) && doc_view(value)
                    == DocView::List(views(existing@) + views(incoming@)) && o@ == eo + Seq::new(
                    incoming@.len(),
                    |i: int| piece,
                ),
                ArrayStrategy::MergeByKey { key } => {
                    &&& (exists|i: int| 0 <= i < existing@.len() && #[trigger] key_defect(existing@, key@, i)) ==> (
                    r matches Err(e) && exists|i: int| 0 <= i < existing@.len() && #[trigger] key_defect(
                        existing@,
                        key@,
                        i,
                    ) && (forall|j: int| 0 <= j < i ==> !#[trigger] key_defect(existing@, key@, j)) && defect_error(
                        e,
                        pointer@,
                        key@,
                        identity_of(existing@[i], key@),
                        origin_at(eo, i, piece),
                    ))
                    &&& (forall|i: int| 0 <= i < existing@.len() ==> !#[trigger] key_defect(existing@, key@, i))
                        ==> match keyed_fold(existing@, eo, incoming@, key@, piece, incoming@.len() as int) {
                        Ok((ms, os)) => r matches Ok(Node::Leaf { value, origins: Some(o), .. }) && doc_view(value)
                            == DocView::List(ms) && o@ == os,
                        Err(f) => r matches Err(e) && keyed_error(e, f, pointer@, key@),
                    }
                },
            }
        }),
{
    let ghost eo = element_origins(origins, provenance.piece, existing@.len());
    let mut addition: Vec<Doc> = Vec::new();
    let mut i: usize = 0;
    while i < incoming.len()
        invariant
            i <= incoming@.len(),
            addition@.len() == i,
            forall|k: int| 0 <= k < i ==> doc_view(#[trigger] addition@[k]) == doc_view(incoming@[k]),
        decreases incoming.len() - i,
    {
        addition.push(copy_doc(&incoming[i]));
        i = i + 1;
    }
    proof {
        assert(views(addition@) =~= views(incoming@));
    }
    let ghost existing_view = existing@;
    let ghost addition_view = addition@;
    let existing_origins = match origins {
        Some(o) => o,
        None => repeat_index(provenance.piece, existing.len()),
    };
    proof {
        assert(existing_origins@ =~= eo);
    }
    let (merged, element_origins) = match strategy {
        ArrayStrategy::Concat => {
            let mut merged = existing;
            let mut origins = existing_origins;
            let mut more = repeat_index(piece, addition.len());
            proof {
                assert(more@ =~= Seq::new(incoming@.len(), |i: int| piece));
            }
            origins.append(&mut more);
            merged.append(&mut addition);
            proof {
                assert(views(merged@) =~= views(existing_view) + views(addition_view));
            }
            (merged, origins)
        },
        ArrayStrategy::MergeByKey { key } => {
            proof {
                lemma_keyed_fold_views(existing_view, eo, addition_view, incoming@, key@, piece, incoming@.len() as int);
                assert forall|i: int| 0 <= i < eo.len() implies #[trigger] eo[i] <= piece by {
                    if origins is Some {
                        assert(eo[i] == origins->0@[i]);
                    }
                }
                lemma_keyed_fold_pieces(existing_view, eo, incoming@, key@, piece, incoming@.len() as int);
            }
            match merge_by_key(pointer, key.as_str(), existing, &existing_origins, addition, piece) {
                Ok(result) => {
                    proof {
                        if !(forall|i: int| 0 <= i < existing_view.len() ==> !#[trigger] key_defect(existing_view, key@, i)) {
                            let i = choose|i: int| 0 <= i < existing_view.len() && #[trigger] key_defect(existing_view, key@, i);
                            assert(key_defect(existing_view, key@, i));
                        }
                        lemma_keyed_view(existing_view, eo, incoming@, key@, piece, incoming@.len() as int);
                        assert(views(existing_view).len() == existing_view.len());
                    }
                    result
                },
                Err(e) => {
                    return Err(e);
                },
            }
        },
    };
    let mut entry = provenance;
    let mut contributors = entry.contributors;
    if contributors.len() == 0 {
        contributors.push(entry.piece);
    }
    proof {
        assert(ascending_pieces(contributors@));
        assert(contributors@.last() == entry.piece);
    }
    if contributors[contributors.len() - 1] != piece {
        contributors.push(piece);
    }
    entry.contributors = contributors;
    entry.piece = piece;
    entry.strategy = Some(strategy.duplicate());
    entry.overrode.clear();
    let r = Node::Leaf { value: Doc::List(merged), provenance: entry, origins: Some(element_origins) };
    proof {
        assert(node_ok(r, piece + 1));
        assert(doc_view(Doc::List(merged)) == DocView::List(views(merged@))) by {
            assert(doc_view(Doc::List(merged))->List_0 =~= views(merged@));
        }
    }
    Ok(r)
}

fn is_mapping(d: &Doc) -> (r: bool)
    ensures
        r == (*d is Mapping),
{
    match d {
        Doc::Mapping(_) => true,
        _ => false,
    }
}

/// Merges one piece's object into the members at the current path.
#[verifier::loop_isolation(false)]
#[verifier::rlimit(60)]
#[verifier::spinoff_prover]
fn absorb(
    members: Vec<(String, Node)>,
    path: &mut Vec<String>,
    piece: usize,
    source: &Vec<(Doc, Doc)>,
    strategies: &StrategyTable,
) -> (r: Result<Vec<(String, Node)>, MergeError>)
    requires
        members_ok(members@, piece + 1),
    ensures
        !(r matches Err(MergeError::NotAnObject { .. })),
        r matches Err(MergeError::TypeConflict { earlier, later, .. }) ==> earlier <= later && later == piece,
        r matches Ok(ms) ==> members_ok(ms@, piece + 1),
        r matches Ok(ms) ==> forall|k: Seq<char>| #[trigger] member_named(ms@, k) <==> (member_named(members@, k)
            || entry_keyed(source@, k)),
        r matches Ok(ms) ==> (distinct_members(members@) ==> distinct_members(ms@)),
        r matches Ok(ms) ==> (members_distinct(members@) ==> members_distinct(ms@)),
        r matches Ok(ms) ==> forall|k: Seq<char>, v: Doc| is_scalar(v) && keyed_value(source@, k) == Some(v)
            ==> #[trigger] member_leaf(ms@, k, v),
        r matches Ok(ms) ==> forall|k: Seq<char>, v: Doc| !entry_keyed(source@, k) ==> (#[trigger] member_leaf(
            ms@,
            k,
            v,
        ) <==> member_leaf(members@, k, v)),
        r matches Ok(ms) ==> (deep_distinct(Doc::Mapping(*source)) ==> forall|p: Seq<Seq<char>>, v: Doc| is_scalar(v)
            && p.len() > 0 && path_value(Doc::Mapping(*source), p) == Some(v) ==> #[trigger] tree_holds(ms@, p, v)),
        r matches Ok(ms) ==> (deep_distinct(Doc::Mapping(*source)) ==> forall|p: Seq<Seq<char>>, v: Doc| path_value(
            Doc::Mapping(*source),
            p,
        ) is None ==> (#[trigger] tree_holds(ms@, p, v) <==> tree_holds(members@, p, v))),
        r matches Ok(ms) ==> (deep_distinct(Doc::Mapping(*source)) ==> forall|p: Seq<Seq<char>>| p.len() > 0
            && #[trigger] leaf_at(Doc::Mapping(*source), p) ==> tree_from(ms@, p, piece)),
        r matches Ok(ms) ==> (deep_distinct(Doc::Mapping(*source)) ==> forall|p: Seq<Seq<char>>, j: usize| path_value(
            Doc::Mapping(*source),
            p,
        ) is None ==> (#[trigger] tree_from(ms@, p, j) <==> tree_from(members@, p, j))),
        (strategies.rows().len() == 0 && deep_distinct(Doc::Mapping(*source)) && members_distinct(members@)) ==> (r is Err
            <==> clash(members@, Doc::Mapping(*source))),
        r matches Ok(ms) ==> (deep_distinct(Doc::Mapping(*source)) && members_distinct(members@) ==> forall|
            p: Seq<Seq<char>>,
            b: bool,
        | p.len() > 0 ==> (#[trigger] tree_is(ms@, p, b) <==> (if path_value(Doc::Mapping(*source), p) is Some {
            doc_is(Doc::Mapping(*source), p, b)
        } else {
            tree_is(members@, p, b)
        }))),
        r is Ok ==> final(path)@ == old(path)@,
        r matches Ok(ms) ==> (deep_distinct(Doc::Mapping(*source)) && members_distinct(members@) ==> forall|
            q: Seq<Seq<char>>,
            l: Seq<DocView>,
        | row_strategy(strategies.rows(), encode(texts(old(path)@) + q)) is Some && list_at(Doc::Mapping(*source), q) is Some
            && #[trigger] holds_list(members@, q, l) ==> holds_list_in(
            ms@,
            q,
            combined_at(strategies.rows(), encode(texts(old(path)@) + q), l, list_at(Doc::Mapping(*source), q)->0),
        )),
        r matches Ok(ms) ==> (deep_distinct(Doc::Mapping(*source)) && members_distinct(members@) ==> forall|
            q: Seq<Seq<char>>,
        | #[trigger] list_at(Doc::Mapping(*source), q) is Some && !holds_some_list(members@, q) ==> holds_list(
            ms@,
            q,
            list_at(Doc::Mapping(*source), q)->0,
        )),
    decreases source, 1nat,
{
    let ghost start = members@;
    let ghost path0 = path@;
    let ghost whole = Doc::Mapping(*source);
    let ghost rows = strategies.rows();
    let mut members = members;
    let mut i: usize = 0;
    while i < source.len()
        invariant
            i <= source@.len(),
            members_ok(members@, piece + 1),
            forall|k: Seq<char>| #[trigger] member_named(members@, k) <==> (member_named(start, k)
                || entry_keyed(source@.take(i as int), k)),
            distinct_members(start) ==> distinct_members(members@),
            members_distinct(start) ==> members_distinct(members@),
            forall|k: Seq<char>, v: Doc| is_scalar(v) && keyed_value(source@.take(i as int), k) == Some(v)
                ==> #[trigger] member_leaf(members@, k, v),
            forall|k: Seq<char>, v: Doc| !entry_keyed(source@.take(i as int), k) ==> (#[trigger] member_leaf(
                members@,
                k,
                v,
            ) <==> member_leaf(start, k, v)),
            deep_distinct(Doc::Mapping(*source)) ==> forall|p: Seq<Seq<char>>, v: Doc| #[trigger] written_before(
                source@,
                i as int,
                p,
                v,
            ) ==> tree_holds(members@, p, v),
            deep_distinct(Doc::Mapping(*source)) ==> forall|p: Seq<Seq<char>>, v: Doc| p.len() > 0 && !touched_before(
                source@,
                i as int,
                p,
            ) ==> (#[trigger] tree_holds(members@, p, v) <==> tree_holds(start, p, v)),
            deep_distinct(Doc::Mapping(*source)) && members_distinct(start) ==> forall|p: Seq<Seq<char>>, b: bool|
                p.len() > 0 ==> (#[trigger] tree_is(members@, p, b) <==> (if touched_before(source@, i as int, p) {
                    shaped_before(source@, i as int, p, b)
                } else {
                    tree_is(start, p, b)
                })),
            (strategies.rows().len() == 0 && deep_distinct(Doc::Mapping(*source)) && members_distinct(start)) ==> forall|
                j: int,
            | 0 <= j < i ==> !#[trigger] member_clash(start, key_text(source@[j].0), source@[j].1),
            deep_distinct(Doc::Mapping(*source)) ==> forall|p: Seq<Seq<char>>| #[trigger] leafed_before(
                source@,
                i as int,
                p,
            ) ==> tree_from(members@, p, piece),
            deep_distinct(Doc::Mapping(*source)) ==> forall|p: Seq<Seq<char>>, j: usize| p.len() > 0 && !touched_before(
                source@,
                i as int,
                p,
            ) ==> (#[trigger] tree_from(members@, p, j) <==> tree_from(start, p, j)),
            path@ == path0,
            whole == Doc::Mapping(*source),
            rows == strategies.rows(),
            deep_distinct(whole) && members_distinct(start) ==> forall|q: Seq<Seq<char>>, l: Seq<DocView>| q.len() > 0
                && entry_keyed(source@.take(i as int), q[0]) && row_strategy(rows, encode(texts(path0) + q)) is Some
                && list_at(whole, q) is Some && #[trigger] holds_list(start, q, l) ==> holds_list_in(
                members@,
                q,
                combined_at(rows, encode(texts(path0) + q), l, list_at(whole, q)->0),
            ),
            deep_distinct(whole) && members_distinct(start) ==> forall|q: Seq<Seq<char>>| q.len() > 0 && entry_keyed(
                source@.take(i as int),
                q[0],
            ) && #[trigger] list_at(whole, q) is Some && !holds_some_list(start, q) ==> holds_list(
                members@,
                q,
                list_at(whole, q)->0,
            ),
        decreases source.len() - i,
    {
        let ghost before = members@;
        let key = key_string(&source[i].0);
        path.push(owned(key.as_str()));
        let ghost pushed = path@;
        proof {
            assert(texts(pushed) =~= texts(path0).push(key_text(source@[i as int].0)));
        }
        proof {
            assert(decreases_to!(*source => source@));
            assert(decreases_to!(source@ => source@[i as int]));
            assert(decreases_to!(source@[i as int] => source@[i as int].1));
        }
        let result = absorb_member(members, path, piece, key, &source[i].1, strategies);
        members = match result {
            Ok(ms) => ms,
            Err(e) => {
                proof {
                    if strategies.rows().len() == 0 && deep_distinct(Doc::Mapping(*source)) && members_distinct(start) {
                        let here = key_text(source@[i as int].0);
                        let x = source@[i as int].1;
                        assert(deep_distinct(x));
                        lemma_member_clash(before, here, x);
                        let (q, b) = choose|q: Seq<Seq<char>>, b: bool| #[trigger] tree_is(before, seq![here] + q, b)
                            && doc_is(x, q, !b);
                        let p = seq![here] + q;
                        assert(p.skip(1) =~= q);
                        assert(!touched_before(source@, i as int, p)) by {
                            if touched_before(source@, i as int, p) {
                                let j = choose|j: int| 0 <= j < i && #[trigger] key_text(source@[j].0) == p[0]
                                    && path_value(source@[j].1, p.skip(1)) is Some;
                                assert(key_text(source@[j].0) != key_text(source@[i as int].0));
                            }
                        }
                        assert(tree_is(start, p, b));
                        lemma_keyed_value_distinct(source@, i as int);
                        assert(doc_is(Doc::Mapping(*source), p, !b));
                        assert(clash(start, Doc::Mapping(*source)));
                    }
                }
                return Err(e);
            },
        };
        proof {
            let taken = source@.take(i + 1);
            assert(taken.drop_last() =~= source@.take(i as int));
            assert forall|k: Seq<char>| #[trigger] entry_keyed(taken, k) <==> (entry_keyed(source@.take(i as int), k)
                || key_text(source@[i as int].0) == k) by {
                if entry_keyed(taken, k) {
                    let j = choose|j: int| 0 <= j < taken.len() && #[trigger] key_text(taken[j].0) == k;
                    if j < i {
                        assert(source@.take(i as int)[j] == taken[j]);
                    }
                }
                if entry_keyed(source@.take(i as int), k) {
                    let j = choose|j: int| 0 <= j < i && #[trigger] key_text(source@.take(i as int)[j].0) == k;
                    assert(taken[j] == source@.take(i as int)[j]);
                }
                if key_text(source@[i as int].0) == k {
                    assert(key_text(taken[i as int].0) == k);
                }
            }
            assert forall|k: Seq<char>| #[trigger] member_named(members@, k) <==> (member_named(start, k)
                || entry_keyed(source@.take(i + 1), k)) by {
                assert(entry_keyed(taken, k) <==> (entry_keyed(source@.take(i as int), k)
                    || key_text(source@[i as int].0) == k));
                assert(member_named(before, k) <==> (member_named(start, k) || entry_keyed(source@.take(i as int), k)));
            }
            let here = key_text(source@[i as int].0);
            assert forall|k: Seq<char>| keyed_value(taken, k) == (if here == k {
                Some(source@[i as int].1)
            } else {
                keyed_value(source@.take(i as int), k)
            }) by {
                assert(taken.last() == source@[i as int]);
            }
            assert forall|k: Seq<char>, v: Doc| is_scalar(v) && keyed_value(taken, k) == Some(v) implies #[trigger] member_leaf(
                members@,
                k,
                v,
            ) by {
                if here != k {
                    assert(member_leaf(before, k, v));
                }
            }
            assert forall|k: Seq<char>, v: Doc| !entry_keyed(taken, k) implies (#[trigger] member_leaf(members@, k, v)
                <==> member_leaf(start, k, v)) by {
                assert(here != k);
                assert(!entry_keyed(source@.take(i as int), k));
                assert(member_leaf(members@, k, v) <==> member_leaf(before, k, v));
            }
            if deep_distinct(Doc::Mapping(*source)) {
                let x = source@[i as int].1;
                assert(deep_distinct(x));
                assert forall|p: Seq<Seq<char>>| #[trigger] leafed_before(source@, i + 1, p) implies tree_from(
                    members@,
                    p,
                    piece,
                ) by {
                    let j = choose|j: int| 0 <= j < i + 1 && #[trigger] key_text(source@[j].0) == p[0] && leaf_at(
                        source@[j].1,
                        p.skip(1),
                    );
                    if j == i {
                        assert(p =~= seq![here] + p.skip(1));
                        assert(tree_from(members@, seq![here] + p.skip(1), piece));
                    } else {
                        assert(leafed_before(source@, i as int, p));
                        assert(tree_from(before, p, piece));
                        assert(key_text(source@[j].0) != key_text(source@[i as int].0));
                    }
                }
                assert forall|p: Seq<Seq<char>>, j: usize| p.len() > 0 && !touched_before(source@, i + 1, p) implies (
                #[trigger] tree_from(members@, p, j) <==> tree_from(start, p, j)) by {
                    assert(!touched_before(source@, i as int, p)) by {
                        if touched_before(source@, i as int, p) {
                            let jj = choose|jj: int| 0 <= jj < i && #[trigger] key_text(source@[jj].0) == p[0] && path_value(
                                source@[jj].1,
                                p.skip(1),
                            ) is Some;
                            assert(touched_before(source@, i + 1, p));
                        }
                    }
                    if here == p[0] && path_value(x, p.skip(1)) is Some {
                        assert(touched_before(source@, i + 1, p));
                    }
                    assert(tree_from(members@, p, j) <==> tree_from(before, p, j));
                }
                assert forall|p: Seq<Seq<char>>, v: Doc| #[trigger] written_before(source@, i + 1, p, v) implies tree_holds(
                    members@,
                    p,
                    v,
                ) by {
                    let j = choose|j: int| 0 <= j < i + 1 && #[trigger] key_text(source@[j].0) == p[0] && path_value(
                        source@[j].1,
                        p.skip(1),
                    ) == Some(v);
                    if j == i {
                        assert(p =~= seq![here] + p.skip(1));
                        assert(tree_holds(members@, seq![here] + p.skip(1), v));
                    } else {
                        assert(written_before(source@, i as int, p, v));
                        assert(tree_holds(before, p, v));
                        assert(key_text(source@[j].0) != key_text(source@[i as int].0));
                    }
                }
                assert forall|p: Seq<Seq<char>>, v: Doc| p.len() > 0 && !touched_before(source@, i + 1, p) implies (
                #[trigger] tree_holds(members@, p, v) <==> tree_holds(start, p, v)) by {
                    assert(!touched_before(source@, i as int, p)) by {
                        if touched_before(source@, i as int, p) {
                            let j = choose|j: int| 0 <= j < i && #[trigger] key_text(source@[j].0) == p[0] && path_value(
                                source@[j].1,
                                p.skip(1),
                            ) is Some;
                            assert(touched_before(source@, i + 1, p));
                        }
                    }
                    if here == p[0] && path_value(x, p.skip(1)) is Some {
                        assert(touched_before(source@, i + 1, p));
                    }
                    assert(tree_holds(members@, p, v) <==> tree_holds(before, p, v));
                }
                if members_distinct(start) {
                    assert forall|p: Seq<Seq<char>>, b: bool| p.len() > 0 implies (#[trigger] tree_is(members@, p, b) <==> (
                    if touched_before(source@, i + 1, p) {
                        shaped_before(source@, i + 1, p, b)
                    } else {
                        tree_is(start, p, b)
                    })) by {
                        let fresh = here == p[0] && path_value(x, p.skip(1)) is Some;
                        if here == p[0] {
                            assert(!touched_before(source@, i as int, p)) by {
                                if touched_before(source@, i as int, p) {
                                    let j = choose|j: int| 0 <= j < i && #[trigger] key_text(source@[j].0) == p[0]
                                        && path_value(source@[j].1, p.skip(1)) is Some;
                                    assert(key_text(source@[j].0) != key_text(source@[i as int].0));
                                }
                            }
                            assert(!shaped_before(source@, i as int, p, b)) by {
                                if shaped_before(source@, i as int, p, b) {
                                    let j = choose|j: int| 0 <= j < i && #[trigger] key_text(source@[j].0) == p[0]
                                        && doc_is(source@[j].1, p.skip(1), b);
                                    assert(key_text(source@[j].0) != key_text(source@[i as int].0));
                                }
                            }
                        }
                        if fresh {
                            assert(touched_before(source@, i + 1, p));
                            assert(shaped_before(source@, i + 1, p, b) <==> doc_is(x, p.skip(1), b)) by {
                                if shaped_before(source@, i + 1, p, b) {
                                    let j = choose|j: int| 0 <= j < i + 1 && #[trigger] key_text(source@[j].0) == p[0]
                                        && doc_is(source@[j].1, p.skip(1), b);
                                    if j < i {
                                        assert(shaped_before(source@, i as int, p, b));
                                    }
                                }
                            }
                        } else {
                            assert(touched_before(source@, i + 1, p) <==> touched_before(source@, i as int, p)) by {
                                if touched_before(source@, i + 1, p) {
                                    let j = choose|j: int| 0 <= j < i + 1 && #[trigger] key_text(source@[j].0) == p[0]
                                        && path_value(source@[j].1, p.skip(1)) is Some;
                                    if j < i {
                                        assert(touched_before(source@, i as int, p));
                                    }
                                }
                            }
                            assert(shaped_before(source@, i + 1, p, b) <==> shaped_before(source@, i as int, p, b)) by {
                                if shaped_before(source@, i + 1, p, b) {
                                    let j = choose|j: int| 0 <= j < i + 1 && #[trigger] key_text(source@[j].0) == p[0]
                                        && doc_is(source@[j].1, p.skip(1), b);
                                    if j < i {
                                        assert(shaped_before(source@, i as int, p, b));
                                    }
                                }
                                if shaped_before(source@, i as int, p, b) {
                                    let j = choose|j: int| 0 <= j < i && #[trigger] key_text(source@[j].0) == p[0]
                                        && doc_is(source@[j].1, p.skip(1), b);
                                    assert(shaped_before(source@, i + 1, p, b));
                                }
                            }
                        }
                    }
                }
                if strategies.rows().len() == 0 && members_distinct(start) {
                    assert(!member_clash(start, here, x)) by {
                        lemma_member_clash(before, here, x);
                        lemma_member_clash(start, here, x);
                        if member_clash(start, here, x) {
                            let (q, b) = choose|q: Seq<Seq<char>>, b: bool| #[trigger] tree_is(start, seq![here] + q, b)
                                && doc_is(x, q, !b);
                            let p = seq![here] + q;
                            assert(p.skip(1) =~= q);
                            assert(!touched_before(source@, i as int, p)) by {
                                if touched_before(source@, i as int, p) {
                                    let j = choose|j: int| 0 <= j < i && #[trigger] key_text(source@[j].0) == p[0]
                                        && path_value(source@[j].1, p.skip(1)) is Some;
                                    assert(key_text(source@[j].0) != key_text(source@[i as int].0));
                                }
                            }
                            assert(tree_is(before, p, b));
                        }
                    }
                    assert forall|j: int| 0 <= j < i + 1 implies !#[trigger] member_clash(
                        start,
                        key_text(source@[j].0),
                        source@[j].1,
                    ) by {}
                }
            }
        }
        path.pop();
        proof {
            assert(path@ =~= path0);
            if deep_distinct(whole) && members_distinct(start) {
                let here = key_text(source@[i as int].0);
                let x = source@[i as int].1;
                let taken = source@.take(i + 1);
                assert(deep_distinct(x));
                lemma_keyed_value_distinct(source@, i as int);
                assert forall|q: Seq<Seq<char>>| q.len() > 0 && q[0] == here implies list_at(whole, q) == list_at(
                    x,
                    q.skip(1),
                ) && !touched_before(source@, i as int, q) by {
                    assert(path_value(whole, q) == path_value(x, q.skip(1)));
                    if touched_before(source@, i as int, q) {
                        let j = choose|j: int| 0 <= j < i && #[trigger] key_text(source@[j].0) == q[0] && path_value(
                            source@[j].1,
                            q.skip(1),
                        ) is Some;
                        assert(key_text(source@[j].0) != key_text(source@[i as int].0));
                    }
                }
                assert forall|q: Seq<Seq<char>>, l: Seq<DocView>| q.len() > 0 && entry_keyed(taken, q[0]) && row_strategy(
                    rows,
                    encode(texts(path0) + q),
                ) is Some && list_at(whole, q) is Some && #[trigger] holds_list(start, q, l) implies holds_list_in(
                    members@,
                    q,
                    combined_at(rows, encode(texts(path0) + q), l, list_at(whole, q)->0),
                ) by {
                    let v = choose|v: Doc| #[trigger] tree_holds(start, q, v) && doc_view(v) == DocView::List(l);
                    if q[0] == here {
                        let rest = q.skip(1);
                        assert(q =~= seq![here] + rest);
                        assert(tree_holds(before, q, v));
                        assert(holds_list(before, seq![here] + rest, l));
                        assert(texts(pushed) + rest =~= texts(path0) + q);
                        assert(list_at(x, rest) == list_at(whole, q));
                        assert(holds_list_in(
                            members@,
                            seq![here] + rest,
                            combined_at(rows, encode(texts(pushed) + rest), l, list_at(x, rest)->0),
                        ));
                    } else {
                        assert(entry_keyed(source@.take(i as int), q[0]));
                        let c = combined_at(rows, encode(texts(path0) + q), l, list_at(whole, q)->0);
                        assert(holds_list_in(before, q, c));
                        let w = choose|w: Doc| #[trigger] tree_holds(before, q, w) && doc_view(w) == DocView::List(c->0);
                        assert(tree_holds(members@, q, w));
                    }
                }
                assert forall|q: Seq<Seq<char>>| q.len() > 0 && entry_keyed(taken, q[0]) && #[trigger] list_at(whole, q) is Some
                    && !holds_some_list(start, q) implies holds_list(members@, q, list_at(whole, q)->0) by {
                    if q[0] == here {
                        let rest = q.skip(1);
                        assert(q =~= seq![here] + rest);
                        assert(!holds_some_list(before, seq![here] + rest)) by {
                            if holds_some_list(before, q) {
                                let v = choose|v: Doc| #[trigger] tree_holds(before, q, v) && v is List;
                                assert(tree_holds(start, q, v));
                            }
                        }
                        assert(holds_list(members@, seq![here] + rest, list_at(x, rest)->0));
                    } else {
                        assert(entry_keyed(source@.take(i as int), q[0]));
                        assert(holds_list(before, q, list_at(whole, q)->0));
                        let w = choose|w: Doc| #[trigger] tree_holds(before, q, w) && doc_view(w) == DocView::List(
                            list_at(whole, q)->0,
                        );
                        assert(tree_holds(members@, q, w));
                    }
                }
            }
        }
        i = i + 1;
    }
    proof {
        assert(source@.take(source@.len() as int) =~= source@);
        if deep_distinct(Doc::Mapping(*source)) {
            let e = source@;
            assert forall|p: Seq<Seq<char>>, v: Doc| is_scalar(v) && p.len() > 0 && path_value(Doc::Mapping(*source), p)
                == Some(v) implies #[trigger] tree_holds(members@, p, v) by {
                if !entry_keyed(e, p[0]) {
                    lemma_keyed_value_absent(e, p[0]);
                }
                let m = choose|m: int| 0 <= m < e.len() && #[trigger] key_text(e[m].0) == p[0];
                lemma_keyed_value_distinct(e, m);
                assert(written_before(e, e.len() as int, p, v));
            }
            assert forall|p: Seq<Seq<char>>, v: Doc| path_value(Doc::Mapping(*source), p) is None implies (
            #[trigger] tree_holds(members@, p, v) <==> tree_holds(start, p, v)) by {
                if p.len() > 0 {
                    assert(!touched_before(e, e.len() as int, p)) by {
                        if touched_before(e, e.len() as int, p) {
                            let j = choose|j: int| 0 <= j < e.len() && #[trigger] key_text(e[j].0) == p[0] && path_value(
                                e[j].1,
                                p.skip(1),
                            ) is Some;
                            lemma_keyed_value_distinct(e, j);
                        }
                    }
                }
            }
            assert forall|p: Seq<Seq<char>>| p.len() > 0 && #[trigger] leaf_at(Doc::Mapping(*source), p) implies tree_from(
                members@,
                p,
                piece,
            ) by {
                if !entry_keyed(e, p[0]) {
                    lemma_keyed_value_absent(e, p[0]);
                }
                let m = choose|m: int| 0 <= m < e.len() && #[trigger] key_text(e[m].0) == p[0];
                lemma_keyed_value_distinct(e, m);
                assert(leafed_before(e, e.len() as int, p));
            }
            assert forall|p: Seq<Seq<char>>, j: usize| path_value(Doc::Mapping(*source), p) is None implies (
            #[trigger] tree_from(members@, p, j) <==> tree_from(start, p, j)) by {
                if p.len() > 0 {
                    assert(!touched_before(e, e.len() as int, p)) by {
                        if touched_before(e, e.len() as int, p) {
                            let jj = choose|jj: int| 0 <= jj < e.len() && #[trigger] key_text(e[jj].0) == p[0] && path_value(
                                e[jj].1,
                                p.skip(1),
                            ) is Some;
                            lemma_keyed_value_distinct(e, jj);
                        }
                    }
                }
            }
            if members_distinct(start) {
                assert forall|p: Seq<Seq<char>>, b: bool| p.len() > 0 implies (#[trigger] tree_is(members@, p, b) <==> (
                if path_value(Doc::Mapping(*source), p) is Some {
                    doc_is(Doc::Mapping(*source), p, b)
                } else {
                    tree_is(start, p, b)
                })) by {
                    if entry_keyed(e, p[0]) {
                        let m = choose|m: int| 0 <= m < e.len() && #[trigger] key_text(e[m].0) == p[0];
                        lemma_keyed_value_distinct(e, m);
                        assert(path_value(Doc::Mapping(*source), p) == path_value(e[m].1, p.skip(1)));
                        assert(touched_before(e, e.len() as int, p) <==> path_value(e[m].1, p.skip(1)) is Some) by {
                            if touched_before(e, e.len() as int, p) {
                                let j = choose|j: int| 0 <= j < e.len() && #[trigger] key_text(e[j].0) == p[0]
                                    && path_value(e[j].1, p.skip(1)) is Some;
                                if j != m {
                                    assert(key_text(e[j].0) != key_text(e[m].0));
                                }
                            }
                        }
                        assert(shaped_before(e, e.len() as int, p, b) <==> doc_is(e[m].1, p.skip(1), b)) by {
                            if shaped_before(e, e.len() as int, p, b) {
                                let j = choose|j: int| 0 <= j < e.len() && #[trigger] key_text(e[j].0) == p[0]
                                    && doc_is(e[j].1, p.skip(1), b);
                                if j != m {
                                    assert(key_text(e[j].0) != key_text(e[m].0));
                                }
                            }
                        }
                    } else {
                        lemma_keyed_value_absent(e, p[0]);
                        assert(!touched_before(e, e.len() as int, p)) by {
                            if touched_before(e, e.len() as int, p) {
                                let j = choose|j: int| 0 <= j < e.len() && #[trigger] key_text(e[j].0) == p[0]
                                    && path_value(e[j].1, p.skip(1)) is Some;
                                assert(entry_keyed(e, p[0]));
                            }
                        }
                    }
                }
                if strategies.rows().len() == 0 {
                    assert(!clash(start, Doc::Mapping(*source))) by {
                        if clash(start, Doc::Mapping(*source)) {
                            let (p, b) = choose|p: Seq<Seq<char>>, b: bool| #[trigger] tree_is(start, p, b) && doc_is(
                                Doc::Mapping(*source),
                                p,
                                !b,
                            );
                            if !entry_keyed(e, p[0]) {
                                lemma_keyed_value_absent(e, p[0]);
                            }
                            let m = choose|m: int| 0 <= m < e.len() && #[trigger] key_text(e[m].0) == p[0];
                            lemma_keyed_value_distinct(e, m);
                            let q = p.skip(1);
                            assert(p =~= seq![key_text(e[m].0)] + q);
                            lemma_member_clash(start, key_text(e[m].0), e[m].1);
                            assert(tree_is(start, seq![key_text(e[m].0)] + q, b));
                            assert(member_clash(start, key_text(e[m].0), e[m].1));
                        }
                    }
                }
            }
        }
    }
    proof {
        assert(source@.take(source@.len() as int) =~= source@);
        if deep_distinct(whole) && members_distinct(start) {
            assert forall|q: Seq<Seq<char>>| #[trigger] list_at(whole, q) is Some implies q.len() > 0 && entry_keyed(
                source@,
                q[0],
            ) by {
                if q.len() == 0 {
                    assert(path_value(whole, q) == Some(whole));
                } else if !entry_keyed(source@, q[0]) {
                    lemma_keyed_value_absent(source@, q[0]);
                }
            }
        }
    }
    Ok(members)
}

/// Merges one key's value, choosing between recursion and a leaf write.
#[verifier::rlimit(100)]
#[verifier::spinoff_prover]
fn absorb_member(
    members: Vec<(String, Node)>,
    path: &mut Vec<String>,
    piece: usize,
    key: String,
    value: &Doc,
    strategies: &StrategyTable,
) -> (r: Result<Vec<(String, Node)>, MergeError>)
    requires
        members_ok(members@, piece + 1),
    ensures
        !(r matches Err(MergeError::NotAnObject { .. })),
        r matches Err(MergeError::TypeConflict { earlier, later, .. }) ==> earlier <= later && later == piece,
        r matches Ok(ms) ==> members_ok(ms@, piece + 1),
        r matches Ok(ms) ==> forall|k: Seq<char>| #[trigger] member_named(ms@, k) <==> (member_named(members@, k)
            || k == key@),
        r matches Ok(ms) ==> (distinct_members(members@) ==> distinct_members(ms@)),
        r matches Ok(ms) ==> (members_distinct(members@) ==> members_distinct(ms@)),
        r matches Ok(ms) ==> (is_scalar(*value) ==> member_leaf(ms@, key@, *value)),
        r matches Ok(ms) ==> forall|k: Seq<char>, v: Doc| k != key@ ==> (#[trigger] member_leaf(ms@, k, v)
            <==> member_leaf(members@, k, v)),
        r matches Ok(ms) ==> (deep_distinct(*value) ==> forall|p: Seq<Seq<char>>, v: Doc| is_scalar(v) && path_value(
            *value,
            p,
        ) == Some(v) ==> #[trigger] tree_holds(ms@, seq![key@] + p, v)),
        r matches Ok(ms) ==> (deep_distinct(*value) ==> forall|p: Seq<Seq<char>>, v: Doc| p.len() > 0 && (p[0] != key@
            || path_value(*value, p.skip(1)) is None) ==> (#[trigger] tree_holds(ms@, p, v) <==> tree_holds(
            members@,
            p,
            v,
        ))),
        r matches Ok(ms) ==> (deep_distinct(*value) ==> forall|p: Seq<Seq<char>>| #[trigger] leaf_at(*value, p)
            ==> tree_from(ms@, seq![key@] + p, piece)),
        r matches Ok(ms) ==> (deep_distinct(*value) ==> forall|p: Seq<Seq<char>>, j: usize| p.len() > 0 && (p[0]
            != key@ || path_value(*value, p.skip(1)) is None) ==> (#[trigger] tree_from(ms@, p, j) <==> tree_from(
            members@,
            p,
            j,
        ))),
        (strategies.rows().len() == 0 && deep_distinct(*value) && members_distinct(members@)) ==> (r is Err
            <==> member_clash(members@, key@, *value)),
        r matches Ok(ms) ==> (deep_distinct(*value) && members_distinct(members@) ==> forall|p: Seq<Seq<char>>, b: bool|
            p.len() > 0 ==> (#[trigger] tree_is(ms@, p, b) <==> (if p[0] == key@ && path_value(*value, p.skip(1)) is Some {
                doc_is(*value, p.skip(1), b)
            } else {
                tree_is(members@, p, b)
            }))),
        r is Ok ==> final(path)@ == old(path)@,
        r matches Ok(ms) ==> (deep_distinct(*value) && members_distinct(members@) ==> lists_lifted(
            members@,
            ms@,
            key@,
            *value,
            strategies.rows(),
            texts(old(path)@),
        )),
    decreases value, 0nat,
{
    let ghost start = members@;
    let ghost key_view = key@;
    let ghost base = texts(path@);
    let ghost rows = strategies.rows();
    let mut members = members;
    let pointer = Pointer::from_tokens(path);
    match find_member(&members, key.as_str()) {
        None => {
            match value {
                Doc::Mapping(source) => {
                    proof {
                        assert(decreases_to!(*value => (*value)->Mapping_0));
                    }
                    let empty: Vec<(String, Node)> = Vec::new();
                    proof {
                        assert(!clash(Seq::<(String, Node)>::empty(), *value));
                        assert(members_distinct(Seq::<(String, Node)>::empty()));
                    }
                    let inner = absorb(empty, path, piece, source, strategies)?;
                    let node = Node::Object { created_by: piece, members: inner };
                    proof {
                        assert(node_ok(node, piece + 1));
                        if deep_distinct(*value) {
                            assert forall|q: Seq<Seq<char>>, b: bool| #[trigger] node_is(node, q, b) <==> (if path_value(
                                *value,
                                q,
                            ) is Some {
                                doc_is(*value, q, b)
                            } else {
                                None::<Node> matches Some(o) && node_is(o, q, b)
                            }) by {
                                if q.len() > 0 {
                                    assert(!tree_is(Seq::<(String, Node)>::empty(), q, b));
                                    assert(node_is(node, q, b) == tree_is(inner@, q, b));
                                } else {
                                    assert(path_value(*value, q) == Some(*value));
                                }
                            }
                            assert(shapes_node(*value, node, None));
                            assert forall|q: Seq<Seq<char>>| #[trigger] leaf_at(*value, q) implies node_from(node, q, piece) by {
                                if q.len() > 0 {
                                    assert(tree_from(inner@, q, piece));
                                } else {
                                    assert(path_value(*value, q) == Some(*value));
                                }
                            }
                            assert forall|q: Seq<Seq<char>>, j: usize| path_value(*value, q) is None implies !#[trigger] node_from(
                                node,
                                q,
                                j,
                            ) by {
                                if q.len() > 0 {
                                    assert(!tree_from(Seq::<(String, Node)>::empty(), q, j));
                                    assert(node_from(node, q, j) == tree_from(inner@, q, j));
                                }
                            }
                        }
                        if deep_distinct(*value) {
                            assert forall|q: Seq<Seq<char>>, v: Doc| is_scalar(v) && path_value(*value, q) == Some(v)
                                implies #[trigger] node_holds(node, q, v) by {
                                if q.len() > 0 {
                                    assert(tree_holds(inner@, q, v));
                                }
                            }
                            assert forall|q: Seq<Seq<char>>, v: Doc| path_value(*value, q) is None implies (
                            #[trigger] node_holds(node, q, v) <==> (None::<Node> matches Some(o) && node_holds(o, q, v))) by {
                                if q.len() > 0 {
                                    assert(!tree_holds(Seq::<(String, Node)>::empty(), q, v));
                                    assert(tree_holds(inner@, q, v) == tree_holds(Seq::<(String, Node)>::empty(), q, v));
                                }
                            }
                        }
                    }
                    proof {
                        if deep_distinct(*value) {
                            assert forall|q: Seq<Seq<char>>| #[trigger] list_at(*value, q) is Some && !node_some_list(
                                None,
                                q,
                            ) implies node_list(node, q, list_at(*value, q)->0) by {
                                if q.len() == 0 {
                                    assert(path_value(*value, q) == Some(*value));
                                }
                                assert(!holds_some_list(Seq::<(String, Node)>::empty(), q)) by {
                                    if holds_some_list(Seq::<(String, Node)>::empty(), q) {
                                        let v = choose|v: Doc| #[trigger] tree_holds(Seq::<(String, Node)>::empty(), q, v)
                                            && v is List;
                                    }
                                }
                                assert(holds_list(inner@, q, list_at(*value, q)->0));
                                let v = choose|v: Doc| #[trigger] tree_holds(inner@, q, v) && doc_view(v) == DocView::List(
                                    list_at(*value, q)->0,
                                );
                                assert(node_holds(node, q, v));
                            }
                            assert(lists_carried(None, node, *value, rows, base));
                        }
                    }
                    members.push((key, node));
                },
                leaf => {
                    let node = Node::Leaf { value: copy_doc(leaf), provenance: KeyProvenance::single(piece), origins: None };
                    proof {
                        assert(node_ok(node, piece + 1));
                        assert forall|q: Seq<Seq<char>>, b: bool| #[trigger] node_is(node, q, b) <==> (if path_value(
                            *value,
                            q,
                        ) is Some {
                            doc_is(*value, q, b)
                        } else {
                            None::<Node> matches Some(o) && node_is(o, q, b)
                        }) by {
                            if q.len() == 0 {
                                assert(path_value(*value, q) == Some(*value));
                            }
                        }
                        assert(shapes_node(*value, node, None));
                        assert forall|q: Seq<Seq<char>>| #[trigger] leaf_at(*value, q) implies node_from(node, q, piece) by {}
                        assert forall|q: Seq<Seq<char>>, j: usize| path_value(*value, q) is None implies !#[trigger] node_from(
                            node,
                            q,
                            j,
                        ) by {
                            if q.len() == 0 {
                                assert(path_value(*value, q) == Some(*value));
                            }
                        }
                        if deep_distinct(*value) {
                            assert forall|q: Seq<Seq<char>>, v: Doc| is_scalar(v) && path_value(*value, q) == Some(v)
                                implies #[trigger] node_holds(node, q, v) by {}
                            assert forall|q: Seq<Seq<char>>, v: Doc| path_value(*value, q) is None implies (
                            #[trigger] node_holds(node, q, v) <==> (None::<Node> matches Some(o) && node_holds(o, q, v))) by {
                                if q.len() == 0 {
                                    assert(path_value(*value, q) == Some(*value));
                                }
                            }
                        }
                    }
                    proof {
                        assert forall|q: Seq<Seq<char>>| #[trigger] list_at(*value, q) is Some && !node_some_list(None, q)
                            implies node_list(node, q, list_at(*value, q)->0) by {
                            if q.len() > 0 {
                                assert(path_value(*value, q) is None);
                            }
                            if let Doc::List(items) = *value {
                                lemma_list_view(items);
                            }
                            let v = node->Leaf_value;
                            assert(node_holds(node, q, v));
                        }
                        assert(lists_carried(None, node, *value, rows, base));
                    }
                    members.push((key, node));
                },
            }
            proof {
                assert(members@.drop_last() =~= start);
                assert(members@.last().0@ == key_view);
                assert forall|k: Seq<char>| #[trigger] member_named(members@, k) <==> (member_named(start, k)
                    || k == key_view) by {
                    if member_named(members@, k) {
                        let j = choose|j: int| 0 <= j < members@.len() && (#[trigger] members@[j]).0@ == k;
                        if j < start.len() {
                            assert(start[j] == members@[j]);
                        }
                    }
                    if member_named(start, k) {
                        let j = choose|j: int| 0 <= j < start.len() && (#[trigger] start[j]).0@ == k;
                        assert(members@[j] == start[j]);
                    }
                    if k == key_view {
                        assert(members@[members@.len() - 1].0@ == k);
                    }
                }
                let last = members@.len() - 1;
                if is_scalar(*value) {
                    assert(members@[last].0@ == key_view);
                    assert(member_leaf(members@, key_view, *value));
                }
                if distinct_members(start) {
                    assert forall|a: int, b: int| 0 <= a < b < members@.len() implies (#[trigger] members@[a]).0@
                        != (#[trigger] members@[b]).0@ by {
                        assert(members@[a] == start[a]);
                        if b < last {
                            assert(members@[b] == start[b]);
                        }
                    }
                }
                assert forall|k: Seq<char>, v: Doc| k != key_view implies (#[trigger] member_leaf(members@, k, v)
                    <==> member_leaf(start, k, v)) by {
                    if member_leaf(members@, k, v) {
                        let j = choose|j: int| 0 <= j < members@.len() && (#[trigger] members@[j]).0@ == k
                            && (members@[j].1 matches Node::Leaf { value, .. } && value == v);
                        assert(j < last);
                        assert(start[j] == members@[j]);
                    }
                    if member_leaf(start, k, v) {
                        let j = choose|j: int| 0 <= j < start.len() && (#[trigger] start[j]).0@ == k
                            && (start[j].1 matches Node::Leaf { value, .. } && value == v);
                        assert(members@[j] == start[j]);
                    }
                }
                if deep_distinct(*value) && members_distinct(start) {
                    lemma_lift_push(start, members@[last], *value, rows, base);
                }
                if deep_distinct(*value) {
                    let g = members@[last].1;
                    assert(members@ == start.push(members@[last]));
                    assert forall|p: Seq<Seq<char>>, v: Doc| is_scalar(v) && path_value(*value, p) == Some(v) implies
                        #[trigger] tree_holds(members@, seq![key_view] + p, v) by {
                        let pp = seq![key_view] + p;
                        assert(pp.skip(1) =~= p);
                        assert(node_holds(g, p, v));
                        assert(members@[last].0@ == pp[0]);
                    }
                    assert forall|p: Seq<Seq<char>>, v: Doc| p.len() > 0 && (p[0] != key_view || path_value(
                        *value,
                        p.skip(1),
                    ) is None) implies (#[trigger] tree_holds(members@, p, v) <==> tree_holds(start, p, v)) by {
                        if p[0] != key_view {
                            lemma_tree_push(start, members@[last], p, v);
                        } else {
                            lemma_tree_push_key(start, members@[last], p, v);
                            assert(!node_holds(g, p.skip(1), v));
                            assert(!tree_holds(start, p, v)) by {
                                if tree_holds(start, p, v) {
                                    let i = choose|i: int| 0 <= i < start.len() && (#[trigger] start[i]).0@ == p[0]
                                        && node_holds(start[i].1, p.skip(1), v);
                                }
                            }
                        }
                    }
                }
            }
            proof {
                let last = members@.len() - 1;
                assert(members@ == start.push(members@[last]));
                assert(!member_clash(start, key_view, *value));
                if deep_distinct(*value) && members_distinct(start) {
                    assert(shapes_node(*value, members@[last].1, None));
                    lemma_shapes_push(start, members@[last], *value);
                }
                if deep_distinct(*value) {
                    let g = members@[last].1;
                    assert forall|p: Seq<Seq<char>>| #[trigger] leaf_at(*value, p) implies tree_from(
                        members@,
                        seq![key_view] + p,
                        piece,
                    ) by {
                        let pp = seq![key_view] + p;
                        assert(pp.skip(1) =~= p);
                        assert(node_from(g, p, piece));
                        assert(members@[last].0@ == pp[0]);
                    }
                    assert forall|p: Seq<Seq<char>>, j: usize| p.len() > 0 && (p[0] != key_view || path_value(
                        *value,
                        p.skip(1),
                    ) is None) implies (#[trigger] tree_from(members@, p, j) <==> tree_from(start, p, j)) by {
                        if p[0] != key_view {
                            lemma_from_push(start, members@[last], p, j);
                        } else {
                            lemma_from_push_key(start, members@[last], p, j);
                            assert(!node_from(g, p.skip(1), j));
                        }
                    }
                }
            }
            Ok(members)
        },
        Some(at) => {
            let ghost before = members@;
            let (name, node) = members.remove(at);
            proof {
                assert(node == before[at as int].1);
                assert(node_ok(node, piece + 1));
                assert forall|k: int| 0 <= k < members@.len() implies node_ok(#[trigger] members@[k].1, piece + 1) by {
                    if k < at {
                        assert(members@[k] == before[k]);
                    } else {
                        assert(members@[k] == before[k + 1]);
                    }
                }
            }
            let next = match node {
                Node::Object { created_by, members: inner } => {
                    match value {
                        Doc::Mapping(source) => {
                            proof {
                                assert(decreases_to!(*value => (*value)->Mapping_0));
                            }
                            let ghost earlier = inner@;
                            let inner = match absorb(inner, path, piece, source, strategies) {
                                Ok(ms) => ms,
                                Err(e) => {
                                    proof {
                                        if strategies.rows().len() == 0 && deep_distinct(*value) && members_distinct(start) {
                                            assert(node_distinct(before[at as int].1));
                                            assert(members_distinct(earlier));
                                            let (p, b) = choose|p: Seq<Seq<char>>, b: bool| #[trigger] tree_is(earlier, p, b)
                                                && doc_is(*value, p, !b);
                                            assert(node_is(before[at as int].1, p, b));
                                            assert(clash_node(before[at as int].1, *value));
                                            lemma_member_clash_at(start, at as int, *value);
                                        }
                                    }
                                    return Err(e);
                                },
                            };
                            let next = Node::Object { created_by, members: inner };
                            proof {
                                assert(node_ok(next, piece + 1));
                                if deep_distinct(*value) {
                                    assert forall|q: Seq<Seq<char>>| #[trigger] leaf_at(*value, q) implies node_from(
                                        next,
                                        q,
                                        piece,
                                    ) by {
                                        if q.len() > 0 {
                                            assert(tree_from(inner@, q, piece));
                                        } else {
                                            assert(path_value(*value, q) == Some(*value));
                                        }
                                    }
                                    assert forall|q: Seq<Seq<char>>, j: usize| path_value(*value, q) is None implies (
                                    #[trigger] node_from(next, q, j) <==> node_from(before[at as int].1, q, j)) by {
                                        if q.len() > 0 {
                                            assert(node_from(before[at as int].1, q, j) == tree_from(earlier, q, j));
                                            assert(node_from(next, q, j) == tree_from(inner@, q, j));
                                        }
                                    }
                                }
                                if deep_distinct(*value) && members_distinct(start) {
                                    assert(node_distinct(before[at as int].1));
                                    assert(members_distinct(earlier));
                                    assert forall|q: Seq<Seq<char>>, b: bool| #[trigger] node_is(next, q, b) <==> (
                                    if path_value(*value, q) is Some {
                                        doc_is(*value, q, b)
                                    } else {
                                        Some(before[at as int].1) matches Some(o) && node_is(o, q, b)
                                    }) by {
                                        if q.len() > 0 {
                                            assert(node_is(before[at as int].1, q, b) == tree_is(earlier, q, b));
                                            assert(node_is(next, q, b) == tree_is(inner@, q, b));
                                        } else {
                                            assert(path_value(*value, q) == Some(*value));
                                        }
                                    }
                                    assert(shapes_node(*value, next, Some(before[at as int].1)));
                                    if strategies.rows().len() == 0 {
                                        assert(!clash_node(before[at as int].1, *value)) by {
                                            if clash_node(before[at as int].1, *value) {
                                                let (q, b) = choose|q: Seq<Seq<char>>, b: bool| #[trigger] node_is(
                                                    before[at as int].1,
                                                    q,
                                                    b,
                                                ) && doc_is(*value, q, !b);
                                                if q.len() > 0 {
                                                    assert(node_is(before[at as int].1, q, b) == tree_is(earlier, q, b));
                                                    assert(tree_is(earlier, q, b));
                                                    assert(clash(earlier, *value));
                                                } else {
                                                    assert(path_value(*value, q) == Some(*value));
                                                }
                                            }
                                        }
                                    }
                                }
                                if deep_distinct(*value) {
                                    assert forall|q: Seq<Seq<char>>, v: Doc| is_scalar(v) && path_value(*value, q) == Some(v)
                                        implies #[trigger] node_holds(next, q, v) by {
                                        if q.len() > 0 {
                                            assert(tree_holds(inner@, q, v));
                                        }
                                    }
                                    assert forall|q: Seq<Seq<char>>, v: Doc| path_value(*value, q) is None implies (
                                    #[trigger] node_holds(next, q, v) <==> node_holds(before[at as int].1, q, v)) by {
                                        if q.len() > 0 {
                                            assert(tree_holds(inner@, q, v) == tree_holds(earlier, q, v));
                                        }
                                    }
                                }
                            }
                            proof {
                                if deep_distinct(*value) && members_distinct(start) {
                                    let old_node = before[at as int].1;
                                    assert(node_distinct(old_node));
                                    assert(members_distinct(earlier));
                                    assert forall|q: Seq<Seq<char>>, l: Seq<DocView>| row_strategy(rows, encode(base + q))
                                        is Some && list_at(*value, q) is Some && #[trigger] node_list_opt(Some(old_node), q, l)
                                        implies node_list_in(
                                        next,
                                        q,
                                        combined_at(rows, encode(base + q), l, list_at(*value, q)->0),
                                    ) by {
                                        let v = choose|v: Doc| #[trigger] node_holds(old_node, q, v) && doc_view(v)
                                            == DocView::List(l);
                                        assert(q.len() > 0);
                                        assert(old_node matches Node::Object { members: m, .. } && m@ == earlier);
                                        assert(tree_holds(earlier, q, v));
                                        assert(holds_list(earlier, q, l));
                                        let c = combined_at(rows, encode(base + q), l, list_at(*value, q)->0);
                                        assert(holds_list_in(inner@, q, c));
                                        let w = choose|w: Doc| #[trigger] tree_holds(inner@, q, w) && doc_view(w)
                                            == DocView::List(c->0);
                                        assert(node_holds(next, q, w));
                                    }
                                    assert forall|q: Seq<Seq<char>>| #[trigger] list_at(*value, q) is Some && !node_some_list(
                                        Some(old_node),
                                        q,
                                    ) implies node_list(next, q, list_at(*value, q)->0) by {
                                        if q.len() == 0 {
                                            assert(path_value(*value, q) == Some(*value));
                                        }
                                        assert(!holds_some_list(earlier, q)) by {
                                            if holds_some_list(earlier, q) {
                                                let v = choose|v: Doc| #[trigger] tree_holds(earlier, q, v) && v is List;
                                                assert(node_holds(old_node, q, v));
                                            }
                                        }
                                        assert(holds_list(inner@, q, list_at(*value, q)->0));
                                        let w = choose|w: Doc| #[trigger] tree_holds(inner@, q, w) && doc_view(w)
                                            == DocView::List(list_at(*value, q)->0);
                                        assert(node_holds(next, q, w));
                                    }
                                    assert(lists_carried(Some(old_node), next, *value, rows, base));
                                }
                            }
                            next
                        },
                        incoming => {
                            proof {
                                if members_distinct(start) {
                                    assert(node_is(before[at as int].1, Seq::empty(), true));
                                    assert(doc_is(*value, Seq::empty(), false));
                                    assert(clash_node(before[at as int].1, *value));
                                    lemma_member_clash_at(start, at as int, *value);
                                }
                            }
                            return Err(MergeError::TypeConflict {
                                pointer,
                                earlier: created_by,
                                later: piece,
                                earlier_type: "object",
                                later_type: incoming.kind_name(),
                            });
                        },
                    }
                },
                Node::Leaf { value: previous, provenance, origins } => {
                    if is_mapping(&previous) != is_mapping(value) {
                        proof {
                            if members_distinct(start) {
                                assert(node_is(before[at as int].1, Seq::empty(), false));
                                assert(doc_is(*value, Seq::empty(), true));
                                assert(clash_node(before[at as int].1, *value));
                                lemma_member_clash_at(start, at as int, *value);
                            }
                        }
                        return Err(MergeError::TypeConflict {
                            pointer,
                            earlier: provenance.piece,
                            later: piece,
                            earlier_type: previous.kind_name(),
                            later_type: value.kind_name(),
                        });
                    }
                    let ghost old_node = before[at as int].1;
                    proof {
                        assert(pointer@ == encode(base + Seq::<Seq<char>>::empty())) by {
                            assert(base + Seq::<Seq<char>>::empty() =~= base);
                        }
                    }
                    let leaf_next = match (previous, value) {
                        (Doc::List(items), Doc::List(incoming)) => {
                            match strategies.get(&pointer) {
                                Some(strategy) => {
                                    let n = apply_strategy(items, provenance, origins, &pointer, piece, incoming, strategy)?;
                                    proof {
                                        lemma_list_view(items);
                                        lemma_list_view(*incoming);
                                        let e = Seq::<Seq<char>>::empty();
                                        assert(list_at(*value, e) == Some(views(incoming@)));
                                        assert forall|q: Seq<Seq<char>>, l: Seq<DocView>| row_strategy(rows, encode(base + q))
                                            is Some && list_at(*value, q) is Some && #[trigger] node_list_opt(Some(old_node), q, l)
                                            implies node_list_in(
                                            n,
                                            q,
                                            combined_at(rows, encode(base + q), l, list_at(*value, q)->0),
                                        ) by {
                                            if q.len() > 0 {
                                                assert(path_value(*value, q) is None);
                                            }
                                            assert(q =~= e);
                                            assert(encode(base + q) == pointer@);
                                            let k = choose|k: int| 0 <= k < rows.len() && #[trigger] rows[k].0 == pointer@;
                                            assert(rows[k].1 == strategy_view(*strategy));
                                            assert(row_strategy(rows, pointer@) == Some(strategy_view(*strategy)));
                                            let v = choose|v: Doc| #[trigger] node_holds(old_node, q, v) && doc_view(v)
                                                == DocView::List(l);
                                            assert(v == Doc::List(items));
                                            assert(views(items@) == l);
                                            let w = n->Leaf_value;
                                            assert(w is List);
                                            assert(doc_view(w) == DocView::List(doc_view(w)->List_0));
                                            assert(node_holds(n, q, w));
                                        }
                                        assert forall|q: Seq<Seq<char>>| #[trigger] list_at(*value, q) is Some && !node_some_list(
                                            Some(old_node),
                                            q,
                                        ) implies node_list(n, q, list_at(*value, q)->0) by {
                                            if q.len() > 0 {
                                                assert(path_value(*value, q) is None);
                                            }
                                            assert(node_holds(old_node, q, Doc::List(items)));
                                        }
                                        assert(lists_carried(Some(old_node), n, *value, rows, base));
                                    }
                                    n
                                },
                                None => {
                                    let n = override_leaf(provenance, piece, value);
                                    proof {
                                        let e = Seq::<Seq<char>>::empty();
                                        assert forall|q: Seq<Seq<char>>, l: Seq<DocView>| row_strategy(rows, encode(base + q))
                                            is Some && list_at(*value, q) is Some && #[trigger] node_list_opt(Some(old_node), q, l)
                                            implies node_list_in(
                                            n,
                                            q,
                                            combined_at(rows, encode(base + q), l, list_at(*value, q)->0),
                                        ) by {
                                            if q.len() > 0 {
                                                assert(path_value(*value, q) is None);
                                            }
                                            assert(q =~= e);
                                            let k = choose|k: int| 0 <= k < rows.len() && #[trigger] rows[k].0 == encode(base + q);
                                            assert(rows[k].0 == pointer@);
                                        }
                                        assert forall|q: Seq<Seq<char>>| #[trigger] list_at(*value, q) is Some && !node_some_list(
                                            Some(old_node),
                                            q,
                                        ) implies node_list(n, q, list_at(*value, q)->0) by {
                                            if q.len() > 0 {
                                                assert(path_value(*value, q) is None);
                                            }
                                            assert(node_holds(old_node, q, Doc::List(items)));
                                        }
                                        assert(lists_carried(Some(old_node), n, *value, rows, base));
                                    }
                                    n
                                },
                            }
                        },
                        (other, incoming) => {
                            let n = override_leaf(provenance, piece, incoming);
                            proof {
                                assert forall|q: Seq<Seq<char>>, l: Seq<DocView>| row_strategy(rows, encode(base + q))
                                    is Some && list_at(*value, q) is Some && #[trigger] node_list_opt(Some(old_node), q, l)
                                    implies node_list_in(
                                    n,
                                    q,
                                    combined_at(rows, encode(base + q), l, list_at(*value, q)->0),
                                ) by {
                                    if q.len() > 0 {
                                        assert(path_value(*value, q) is None);
                                    }
                                    let v = choose|v: Doc| #[trigger] node_holds(old_node, q, v) && doc_view(v)
                                        == DocView::List(l);
                                    assert(v == other);
                                }
                                assert forall|q: Seq<Seq<char>>| #[trigger] list_at(*value, q) is Some && !node_some_list(
                                    Some(old_node),
                                    q,
                                ) implies node_list(n, q, list_at(*value, q)->0) by {
                                    if q.len() > 0 {
                                        assert(path_value(*value, q) is None);
                                    }
                                    if let Doc::List(items) = *value {
                                        lemma_list_view(items);
                                    }
                                    let w = n->Leaf_value;
                                    assert(node_holds(n, q, w));
                                }
                                assert(lists_carried(Some(old_node), n, *value, rows, base));
                            }
                            n
                        },
                    };
                    proof {
                        assert(!(*value is Mapping));
                        assert(leaf_next is Leaf);
                        assert forall|q: Seq<Seq<char>>, b: bool| #[trigger] node_is(leaf_next, q, b) <==> (if path_value(
                            *value,
                            q,
                        ) is Some {
                            doc_is(*value, q, b)
                        } else {
                            Some(before[at as int].1) matches Some(o) && node_is(o, q, b)
                        }) by {
                            if q.len() == 0 {
                                assert(path_value(*value, q) == Some(*value));
                            }
                        }
                        assert(shapes_node(*value, leaf_next, Some(before[at as int].1)));
                        assert forall|q: Seq<Seq<char>>| #[trigger] leaf_at(*value, q) implies node_from(leaf_next, q, piece) by {}
                        assert forall|q: Seq<Seq<char>>, j: usize| path_value(*value, q) is None implies (#[trigger] node_from(
                            leaf_next,
                            q,
                            j,
                        ) <==> node_from(before[at as int].1, q, j)) by {
                            if q.len() == 0 {
                                assert(path_value(*value, q) == Some(*value));
                            }
                        }
                        assert(!clash_node(before[at as int].1, *value)) by {
                            if clash_node(before[at as int].1, *value) {
                                let (q, b) = choose|q: Seq<Seq<char>>, b: bool| #[trigger] node_is(before[at as int].1, q, b)
                                    && doc_is(*value, q, !b);
                                if q.len() == 0 {
                                    assert(path_value(*value, q) == Some(*value));
                                }
                            }
                        }
                        if deep_distinct(*value) {
                            assert forall|q: Seq<Seq<char>>, v: Doc| is_scalar(v) && path_value(*value, q) == Some(v)
                                implies #[trigger] node_holds(leaf_next, q, v) by {}
                            assert forall|q: Seq<Seq<char>>, v: Doc| path_value(*value, q) is None implies (
                            #[trigger] node_holds(leaf_next, q, v) <==> node_holds(before[at as int].1, q, v)) by {
                                if q.len() == 0 {
                                    assert(path_value(*value, q) == Some(*value));
                                }
                            }
                        }
                    }
                    leaf_next
                },
            };
            let ghost rest = members@;
            members.insert(at, (name, next));
            proof {
                assert(members@[at as int].0 == before[at as int].0);
                assert forall|k: Seq<char>| #[trigger] member_named(members@, k) <==> (member_named(start, k)
                    || k == key_view) by {
                    if member_named(members@, k) {
                        let j = choose|j: int| 0 <= j < members@.len() && (#[trigger] members@[j]).0@ == k;
                        if j < at {
                            assert(members@[j] == rest[j]);
                            assert(rest[j] == before[j]);
                        } else if j > at {
                            assert(members@[j] == rest[j - 1]);
                            assert(rest[j - 1] == before[j]);
                        }
                        assert(before[j].0@ == k);
                    }
                    if member_named(start, k) {
                        let j = choose|j: int| 0 <= j < start.len() && (#[trigger] start[j]).0@ == k;
                        if j < at {
                            assert(rest[j] == before[j]);
                            assert(members@[j] == rest[j]);
                        } else if j > at {
                            assert(rest[j - 1] == before[j]);
                            assert(members@[j] == rest[j - 1]);
                        }
                        assert(members@[j].0@ == k);
                    }
                    if k == key_view {
                        assert(members@[at as int].0@ == k);
                    }
                }
                assert(is_scalar(*value) ==> (next matches Node::Leaf { value: x, .. } && x == *value));
                assert(members@ =~= before.update(at as int, members@[at as int]));
                if deep_distinct(*value) && members_distinct(start) {
                    lemma_lift_update(before, at as int, members@[at as int], *value, rows, base);
                }
                if deep_distinct(*value) {
                    assert forall|p: Seq<Seq<char>>| #[trigger] leaf_at(*value, p) implies tree_from(
                        members@,
                        seq![key_view] + p,
                        piece,
                    ) by {
                        let pp = seq![key_view] + p;
                        assert(pp.skip(1) =~= p);
                        assert(node_from(next, p, piece));
                        assert(members@[at as int].0@ == pp[0]);
                    }
                    assert forall|p: Seq<Seq<char>>, j: usize| p.len() > 0 && (p[0] != key_view || path_value(
                        *value,
                        p.skip(1),
                    ) is None) implies (#[trigger] tree_from(members@, p, j) <==> tree_from(start, p, j)) by {
                        if p[0] == key_view {
                            assert(node_from(next, p.skip(1), j) <==> node_from(before[at as int].1, p.skip(1), j));
                        }
                        lemma_from_update(before, at as int, members@[at as int], p, j);
                    }
                }
                if members_distinct(start) {
                    lemma_member_clash_at(start, at as int, *value);
                    if deep_distinct(*value) {
                        assert(shapes_node(*value, next, Some(before[at as int].1)));
                        lemma_shapes_update(before, at as int, members@[at as int], *value);
                    }
                }
                if deep_distinct(*value) {
                    let entry = members@[at as int];
                    assert(members@ =~= before.update(at as int, entry));
                    assert(entry.0 == before[at as int].0);
                    assert forall|p: Seq<Seq<char>>, v: Doc| is_scalar(v) && path_value(*value, p) == Some(v) implies
                        #[trigger] tree_holds(members@, seq![key_view] + p, v) by {
                        let pp = seq![key_view] + p;
                        assert(pp.skip(1) =~= p);
                        assert(node_holds(next, p, v));
                        assert(members@[at as int].0@ == pp[0]);
                    }
                    assert forall|p: Seq<Seq<char>>, v: Doc| p.len() > 0 && (p[0] != key_view || path_value(
                        *value,
                        p.skip(1),
                    ) is None) implies (#[trigger] tree_holds(members@, p, v) <==> tree_holds(start, p, v)) by {
                        if p[0] == key_view {
                            assert(node_holds(entry.1, p.skip(1), v) <==> node_holds(before[at as int].1, p.skip(1), v));
                        }
                        lemma_tree_update(before, at as int, entry, p, v);
                    }
                }
                if is_scalar(*value) {
                    assert(members@[at as int].0@ == key_view);
                    assert(member_leaf(members@, key_view, *value));
                }
                if distinct_members(start) {
                    assert forall|a: int, b: int| 0 <= a < b < members@.len() implies (#[trigger] members@[a]).0@
                        != (#[trigger] members@[b]).0@ by {
                        assert(members@[a].0@ == before[a].0@) by {
                            if a < at {
                                assert(members@[a] == rest[a]);
                                assert(rest[a] == before[a]);
                            } else if a > at {
                                assert(members@[a] == rest[a - 1]);
                                assert(rest[a - 1] == before[a]);
                            }
                        }
                        assert(members@[b].0@ == before[b].0@) by {
                            if b < at {
                                assert(members@[b] == rest[b]);
                                assert(rest[b] == before[b]);
                            } else if b > at {
                                assert(members@[b] == rest[b - 1]);
                                assert(rest[b - 1] == before[b]);
                            }
                        }
                    }
                }
                assert forall|k: Seq<char>, v: Doc| k != key_view implies (#[trigger] member_leaf(members@, k, v)
                    <==> member_leaf(start, k, v)) by {
                    if member_leaf(members@, k, v) {
                        let j = choose|j: int| 0 <= j < members@.len() && (#[trigger] members@[j]).0@ == k
                            && (members@[j].1 matches Node::Leaf { value, .. } && value == v);
                        assert(j != at);
                        if j < at {
                            assert(members@[j] == rest[j]);
                            assert(rest[j] == before[j]);
                        } else {
                            assert(members@[j] == rest[j - 1]);
                            assert(rest[j - 1] == before[j]);
                        }
                    }
                    if member_leaf(start, k, v) {
                        let j = choose|j: int| 0 <= j < start.len() && (#[trigger] start[j]).0@ == k
                            && (start[j].1 matches Node::Leaf { value, .. } && value == v);
                        assert(j != at);
                        if j < at {
                            assert(rest[j] == before[j]);
                            assert(members@[j] == rest[j]);
                        } else {
                            assert(rest[j - 1] == before[j]);
                            assert(members@[j] == rest[j - 1]);
                        }
                    }
                }
                assert forall|k: int| 0 <= k < members@.len() implies node_ok(#[trigger] members@[k].1, piece + 1) by {
                    if k < at {
                        assert(members@[k] == rest[k]);
                    } else if k > at {
                        assert(members@[k] == rest[k - 1]);
                    }
                }
            }
            Ok(members)
        },
    }
}

/// What a pointer addresses in the folded document.
enum Found<'a> {
    Missing,
    Object,
    Leaf(&'a Doc, &'a KeyProvenance, &'a Option<Vec<usize>>),
}

/// Reads the node at a decoded token path, from the tokens at `from` on.
fn at<'a>(members: &'a Vec<(String, Node)>, tokens: &Vec<String>, from: usize) -> (r: Found<'a>)
    requires
        from <= tokens@.len(),
    ensures
        r matches Found::Leaf(value, _, _) ==> tree_holds(members@, texts(tokens@).skip(from as int), *value),
        from == tokens@.len() ==> r is Object,
        from < tokens@.len() ==> match spot_in(members@, texts(tokens@).skip(from as int)) {
            None => r is Missing,
            Some(Node::Object { .. }) => r is Object,
            Some(Node::Leaf { value, provenance, origins }) => r matches Found::Leaf(v, q, o) && *v == value
                && *q == provenance && *o == origins,
        },
    decreases members, tokens@.len() - from,
{
    let ghost p = texts(tokens@).skip(from as int);
    if from == tokens.len() {
        return Found::Object;
    }
    match find_member(members, tokens[from].as_str()) {
        None => Found::Missing,
        Some(i) => {
            let node = &members[i].1;
            match node {
                Node::Object { members: inner, .. } => {
                    proof {
                        assert(decreases_to!(*members => members@));
                        assert(decreases_to!(members@ => members@[i as int]));
                        assert(decreases_to!(members@[i as int] => members@[i as int].1));
                        assert(decreases_to!(members@[i as int].1 => (members@[i as int].1)->Object_members));
                    }
                    let found = at(inner, tokens, from + 1);
                    proof {
                        assert(p[0] == tokens@[from as int]@);
                        assert(p.skip(1) =~= texts(tokens@).skip(from + 1));
                        if let Found::Leaf(value, _, _) = found {
                            assert(node_holds(members@[i as int].1, p.skip(1), *value));
                        }
                    }
                    found
                },
                Node::Leaf { value, provenance, origins } => {
                    if from + 1 == tokens.len() {
                        proof {
                            assert(p[0] == tokens@[from as int]@);
                            assert(p.skip(1) =~= Seq::<Seq<char>>::empty());
                            assert(node_holds(members@[i as int].1, p.skip(1), *value));
                        }
                        Found::Leaf(value, provenance, origins)
                    } else {
                        Found::Missing
                    }
                },
            }
        },
    }
}

/// Confirms every declared pointer addressed an array that exists; a
/// strategy that silently applied to nothing would leave settings the
/// profile says the user does not have.
fn verify_every_strategy_applied(root: &Vec<(String, Node)>, strategies: &StrategyTable) -> (r: Result<(), MergeError>)
    ensures
        !(r matches Err(MergeError::NotAnObject { .. })),
        !(r matches Err(MergeError::TypeConflict { .. })),
        strategies.rows().len() == 0 ==> r is Ok,
        r is Ok ==> forall|k: int| 0 <= k < strategies.rows().len() ==> reaches_list(
            root@,
            decode_spec(#[trigger] strategies.rows()[k].0)->Ok_0,
        ),
        r is Ok ==> forall|k: int| 0 <= k < strategies.rows().len() ==> encode(
            decode_spec(#[trigger] strategies.rows()[k].0)->Ok_0,
        ) == strategies.rows()[k].0,
        ascending(strategies.rows()),
{
    let entries = strategies.entries();
    proof {
        assert(rows_of(entries@).len() == entries@.len());
    }
    let mut i: usize = 0;
    while i < entries.len()
        invariant
            i <= entries@.len(),
            entries@.len() == strategies.rows().len(),
            rows_of(entries@) == strategies.rows(),
            forall|k: int| 0 <= k < i ==> reaches_list(root@, decode_spec(#[trigger] strategies.rows()[k].0)->Ok_0),
            forall|k: int| 0 <= k < i ==> encode(decode_spec(#[trigger] strategies.rows()[k].0)->Ok_0)
                == strategies.rows()[k].0,
            ascending(strategies.rows()),
        decreases entries.len() - i,
    {
        let pointer = &entries[i].0;
        let strategy = &entries[i].1;
        let tokens = pointer.tokens();
        proof {
            assert(strategies.rows()[i as int].0 == entries@[i as int].0@);
        }
        match at(root, &tokens, 0) {
            Found::Missing => {
                return Err(MergeError::StrategyTargetMissing { pointer: pointer.duplicate() });
            },
            Found::Object => {
                return Err(MergeError::StrategyTargetNotAnArray { pointer: pointer.duplicate(), actual_type: "object" });
            },
            Found::Leaf(value, provenance, origins) => {
                match value {
                    Doc::List(elements) => {
                        proof {
                            assert(texts(tokens@).skip(0) =~= texts(tokens@));
                            assert(strategies.rows()[i as int].0 == entries@[i as int].0@);
                            assert(tree_holds(root@, decode_spec(strategies.rows()[i as int].0)->Ok_0, *value));
                            assert(reaches_list(root@, decode_spec(strategies.rows()[i as int].0)->Ok_0));
                        }
                        if let ArrayStrategy::MergeByKey { key } = strategy {
                            let empty: Vec<usize> = Vec::new();
                            let known = match origins {
                                Some(o) => o,
                                None => &empty,
                            };
                            validate_merge_by_key(pointer, key.as_str(), elements, known, provenance.piece)?;
                        }
                    },
                    other => {
                        return Err(MergeError::StrategyTargetNotAnArray {
                            pointer: pointer.duplicate(),
                            actual_type: other.kind_name(),
                        });
                    },
                }
            },
        }
        i = i + 1;
    }
    Ok(())
}

/// Lists every leaf's pointer and provenance, depth first.
fn collect(members: &Vec<(String, Node)>, path: &mut Vec<String>, out: &mut Vec<(Pointer, KeyProvenance)>, pieces: Ghost<int>)
    requires
        members_ok(members@, pieces@),
        forall|k: int| 0 <= k < old(out)@.len() ==> provenance_ok(#[trigger] old(out)@[k].1, pieces@),
    ensures
        forall|k: int| 0 <= k < final(out)@.len() ==> provenance_ok(#[trigger] final(out)@[k].1, pieces@),
        final(path)@ == old(path)@,
        final(out)@.len() >= old(out)@.len(),
        forall|k: int| 0 <= k < old(out)@.len() ==> #[trigger] final(out)@[k] == old(out)@[k],
        forall|p: Seq<Seq<char>>, j: usize| #[trigger] tree_from(members@, p, j) ==> listed(
            final(out)@,
            encode(texts(old(path)@) + p),
            j,
        ),
        forall|k: int| old(out)@.len() <= k < final(out)@.len() ==> exists|p: Seq<Seq<char>>| (#[trigger] final(out)@[k]).0@
            == encode(texts(old(path)@) + p) && tree_from(members@, p, final(out)@[k].1.piece),
    decreases members,
{
    let ghost path0 = path@;
    let ghost out0 = out@;
    let mut i: usize = 0;
    while i < members.len()
        invariant
            i <= members@.len(),
            members_ok(members@, pieces@),
            forall|k: int| 0 <= k < out@.len() ==> provenance_ok(#[trigger] out@[k].1, pieces@),
            path@ == path0,
            out@.len() >= out0.len(),
            forall|k: int| 0 <= k < out0.len() ==> #[trigger] out@[k] == out0[k],
            forall|p: Seq<Seq<char>>, j: usize| #[trigger] tree_from(members@.take(i as int), p, j) ==> listed(
                out@,
                encode(texts(path0) + p),
                j,
            ),
            forall|k: int| out0.len() <= k < out@.len() ==> exists|p: Seq<Seq<char>>| (#[trigger] out@[k]).0@
                == encode(texts(path0) + p) && tree_from(members@.take(i as int), p, out@[k].1.piece),
        decreases members.len() - i,
    {
        proof {
            assert(node_ok(members@[i as int].1, pieces@));
        }
        let ghost before = out@;
        let key = owned(members[i].0.as_str());
        path.push(key);
        let ghost pushed = path@;
        proof {
            assert(texts(path@) =~= texts(path0).push(members@[i as int].0@));
        }
        match &members[i].1 {
            Node::Object { members: inner, .. } => {
                proof {
                    assert(decreases_to!(*members => members@));
                    assert(decreases_to!(members@ => members@[i as int]));
                    assert(decreases_to!(members@[i as int] => members@[i as int].1));
                    assert(decreases_to!(members@[i as int].1 => (members@[i as int].1)->Object_members));
                }
                collect(inner, path, out, pieces);
            },
            Node::Leaf { provenance, .. } => {
                out.push((Pointer::from_tokens(path), copy_provenance(provenance)));
            },
        }
        path.pop();
        proof {
            assert(path@ =~= path0);
            assert forall|k: int| 0 <= k < out0.len() implies #[trigger] out@[k] == out0[k] by {
                assert(out@[k] == before[k]);
            }
            let here = members@[i as int].0@;
            let shorter = members@.take(i as int);
            let longer = members@.take(i + 1);
            assert forall|k: int| out0.len() <= k < out@.len() implies exists|p: Seq<Seq<char>>| (#[trigger] out@[k]).0@
                == encode(texts(path0) + p) && tree_from(longer, p, out@[k].1.piece) by {
                if k < before.len() {
                    assert(out@[k] == before[k]);
                    let p = choose|p: Seq<Seq<char>>| (#[trigger] before[k]).0@ == encode(texts(path0) + p) && tree_from(
                        shorter,
                        p,
                        before[k].1.piece,
                    );
                    let m = choose|m: int| 0 <= m < shorter.len() && (#[trigger] shorter[m]).0@ == p[0] && node_from(
                        shorter[m].1,
                        p.skip(1),
                        before[k].1.piece,
                    );
                    assert(longer[m] == shorter[m]);
                    assert(tree_from(longer, p, out@[k].1.piece));
                } else {
                    assert(longer[i as int] == members@[i as int]);
                    match members@[i as int].1 {
                        Node::Object { members: inner, .. } => {
                            let q = choose|q: Seq<Seq<char>>| (#[trigger] out@[k]).0@ == encode(texts(pushed) + q)
                                && tree_from(inner@, q, out@[k].1.piece);
                            assert(texts(pushed) + q =~= texts(path0) + (seq![here] + q));
                            assert((seq![here] + q).skip(1) =~= q);
                            assert(tree_from(longer, seq![here] + q, out@[k].1.piece));
                        },
                        Node::Leaf { .. } => {
                            assert(k == before.len());
                            assert(texts(pushed) =~= texts(path0) + seq![here]);
                            assert(seq![here].skip(1) =~= Seq::<Seq<char>>::empty());
                            assert(tree_from(longer, seq![here], out@[k].1.piece));
                        },
                    }
                }
            }
            assert forall|p: Seq<Seq<char>>, j: usize| #[trigger] tree_from(members@.take(i + 1), p, j) implies listed(
                out@,
                encode(texts(path0) + p),
                j,
            ) by {
                let t = members@.take(i + 1);
                let m = choose|m: int| 0 <= m < t.len() && (#[trigger] t[m]).0@ == p[0] && node_from(t[m].1, p.skip(1), j);
                if m < i {
                    assert(members@.take(i as int)[m] == t[m]);
                    assert(tree_from(members@.take(i as int), p, j));
                    let k = choose|k: int| 0 <= k < before.len() && (#[trigger] before[k]).0@ == encode(texts(path0) + p)
                        && before[k].1.piece == j;
                    assert(out@[k] == before[k]);
                } else {
                    assert(t[m] == members@[i as int]);
                    assert(texts(path0) + p =~= texts(path0).push(members@[i as int].0@) + p.skip(1));
                    match members@[i as int].1 {
                        Node::Object { members: inner, .. } => {
                            assert(tree_from(inner@, p.skip(1), j));
                        },
                        Node::Leaf { .. } => {
                            assert(p.skip(1).len() == 0);
                            assert(texts(path0) + p =~= texts(path0).push(members@[i as int].0@));
                            assert(out@[before.len() as int].1.piece == j);
                        },
                    }
                }
            }
        }
        i = i + 1;
    }
    proof {
        assert(members@.take(members@.len() as int) =~= members@);
    }
}

/// The document the folded members spell, before canonical ordering.
fn document_of(members: Vec<(String, Node)>) -> (r: Doc)
    ensures
        r is Mapping,
        forall|k: Seq<char>| #[trigger] has_key(r, k) <==> member_named(members@, k),
        forall|k: Seq<char>, v: Doc| #[trigger] member_leaf(members@, k, v) ==> holds_entry(r, k, v),
        forall|p: Seq<Seq<char>>, v: Doc| #[trigger] tree_holds(members@, p, v) ==> path_holds(r, p, v),
        members_distinct(members@) ==> deep_distinct(r),
        members_distinct(members@) ==> forall|p: Seq<Seq<char>>, b: bool| p.len() > 0 ==> (#[trigger] path_kind(r, p, b)
            <==> tree_is(members@, p, b)),
    decreases members,
{
    let ghost whole = members;
    let mut rest = members;
    let mut out: Vec<(Doc, Doc)> = Vec::new();
    let total = rest.len();
    let mut i: usize = 0;
    while i < total
        invariant
            whole == members,
            i <= total,
            total == whole@.len(),
            rest@ == whole@.skip(i as int),
            out@.len() == i,
            forall|m: int| 0 <= m < i ==> key_text(#[trigger] out@[m].0) == whole@[m].0@,
            forall|m: int| 0 <= m < i ==> ((#[trigger] whole@[m]).1 matches Node::Leaf { value, .. } ==> out@[m].1
                == value),
            forall|m: int, q: Seq<Seq<char>>, v: Doc| 0 <= m < i && #[trigger] node_holds(whole@[m].1, q, v)
                ==> path_holds(out@[m].1, q, v),
            forall|m: int| 0 <= m < i && node_distinct(#[trigger] whole@[m].1) ==> deep_distinct(out@[m].1),
            forall|m: int, q: Seq<Seq<char>>, b: bool|
                #![trigger node_is(whole@[m].1, q, b)]
                #![trigger path_kind(out@[m].1, q, b)]
                0 <= m < i && node_distinct(whole@[m].1) ==> (node_is(whole@[m].1, q, b) <==> path_kind(out@[m].1, q, b)),
        decreases total - i,
    {
        proof {
            assert(rest@[0] == whole@[i as int]);
        }
        let (key, node) = rest.remove(0);
        proof {
            assert(rest@ =~= whole@.skip(i + 1));
        }
        let value = match node {
            Node::Object { members: inner, .. } => {
                proof {
                    assert(decreases_to!(whole => whole@));
                    assert(decreases_to!(whole@ => whole@[i as int]));
                    assert(decreases_to!(whole@[i as int] => whole@[i as int].1));
                    assert(decreases_to!(whole@[i as int].1 => (whole@[i as int].1)->Object_members));
                }
                let ghost inner_view = inner@;
                let value = document_of(inner);
                proof {
                    if node_distinct(whole@[i as int].1) {
                        assert(members_distinct(inner_view));
                        assert forall|q: Seq<Seq<char>>, b: bool| #[trigger] node_is(whole@[i as int].1, q, b) <==> path_kind(
                            value,
                            q,
                            b,
                        ) by {
                            if q.len() > 0 {
                                assert(node_is(whole@[i as int].1, q, b) == tree_is(inner_view, q, b));
                            }
                        }
                    }
                    assert forall|q: Seq<Seq<char>>, v: Doc| #[trigger] node_holds(whole@[i as int].1, q, v) implies path_holds(
                        value,
                        q,
                        v,
                    ) by {
                        if q.len() > 0 {
                            assert(tree_holds(inner_view, q, v));
                        }
                    }
                }
                value
            },
            Node::Leaf { value, .. } => value,
        };
        proof {
            assert forall|q: Seq<Seq<char>>, v: Doc| #[trigger] node_holds(whole@[i as int].1, q, v) implies path_holds(
                value,
                q,
                v,
            ) by {}
        }
        proof {
            assert(node_distinct(whole@[i as int].1) ==> deep_distinct(value));
            if node_distinct(whole@[i as int].1) {
                assert forall|q: Seq<Seq<char>>, b: bool| #[trigger] node_is(whole@[i as int].1, q, b) <==> path_kind(
                    value,
                    q,
                    b,
                ) by {
                    if whole@[i as int].1 is Leaf && q.len() > 0 {
                        assert(!node_is(whole@[i as int].1, q, b));
                    }
                }
            }
        }
        let ghost shorter = out@;
        out.push((Doc::Text(key), value));
        proof {
            assert forall|m: int, q: Seq<Seq<char>>, b: bool| 0 <= m < i + 1 && node_distinct(whole@[m].1) implies (
            #[trigger] node_is(whole@[m].1, q, b) <==> path_kind(out@[m].1, q, b)) by {
                if m < i {
                    assert(out@[m] == shorter[m]);
                }
            }
            assert forall|m: int| 0 <= m < i + 1 && node_distinct(#[trigger] whole@[m].1) implies deep_distinct(out@[m].1) by {
                if m < i {
                    assert(out@[m] == shorter[m]);
                }
            }
            assert forall|m: int, q: Seq<Seq<char>>, v: Doc| 0 <= m < i + 1 && #[trigger] node_holds(whole@[m].1, q, v)
                implies path_holds(out@[m].1, q, v) by {
                if m < i {
                    assert(out@[m] == shorter[m]);
                }
            }
        }
        i = i + 1;
    }
    let r = Doc::Mapping(out);
    proof {
        assert forall|k: Seq<char>| #[trigger] has_key(r, k) <==> member_named(members@, k) by {
            if has_key(r, k) {
                let m = choose|m: int| 0 <= m < out@.len() && #[trigger] key_text(out@[m].0) == k;
                assert(whole@[m].0@ == k);
            }
            if member_named(members@, k) {
                let m = choose|m: int| 0 <= m < whole@.len() && (#[trigger] whole@[m]).0@ == k;
                assert(key_text(out@[m].0) == k);
            }
        }
        assert forall|k: Seq<char>, v: Doc| #[trigger] member_leaf(members@, k, v) implies holds_entry(r, k, v) by {
            let m = choose|m: int| 0 <= m < whole@.len() && (#[trigger] whole@[m]).0@ == k
                && (whole@[m].1 matches Node::Leaf { value, .. } && value == v);
            assert(key_text(out@[m].0) == k && out@[m].1 == v);
        }
        if members_distinct(members@) {
            assert forall|a: int, b: int| 0 <= a < b < out@.len() implies key_text(#[trigger] out@[a].0) != key_text(
                #[trigger] out@[b].0,
            ) by {
                assert(whole@[a].0@ != whole@[b].0@);
            }
            assert forall|m: int| 0 <= m < out@.len() implies deep_distinct(#[trigger] out@[m].1) by {
                assert(node_distinct(whole@[m].1));
            }
        }
        assert forall|p: Seq<Seq<char>>, v: Doc| #[trigger] tree_holds(members@, p, v) implies path_holds(r, p, v) by {
            let m = choose|m: int| 0 <= m < whole@.len() && (#[trigger] whole@[m]).0@ == p[0] && node_holds(
                whole@[m].1,
                p.skip(1),
                v,
            );
            assert(path_holds(out@[m].1, p.skip(1), v));
            assert(key_text(out@[m].0) == p[0]);
            assert(entries_hold_path(out@, p, v));
        }
        if members_distinct(members@) {
            assert forall|p: Seq<Seq<char>>, b: bool| p.len() > 0 implies (#[trigger] path_kind(r, p, b) <==> tree_is(
                members@,
                p,
                b,
            )) by {
                if path_kind(r, p, b) {
                    let m = choose|m: int| 0 <= m < out@.len() && #[trigger] key_text(out@[m].0) == p[0] && path_kind(
                        out@[m].1,
                        p.skip(1),
                        b,
                    );
                    assert(node_distinct(whole@[m].1));
                    assert(node_is(whole@[m].1, p.skip(1), b));
                    assert(whole@[m].0@ == p[0]);
                }
                if tree_is(members@, p, b) {
                    let m = choose|m: int| 0 <= m < whole@.len() && (#[trigger] whole@[m]).0@ == p[0] && node_is(
                        whole@[m].1,
                        p.skip(1),
                        b,
                    );
                    assert(node_distinct(whole@[m].1));
                    assert(path_kind(out@[m].1, p.skip(1), b));
                    assert(key_text(out@[m].0) == p[0]);
                    assert(entries_reach_kind(out@, p, b));
                }
            }
        }
    }
    r
}

/// Whether keys are in ascending pointer order.
pub open spec fn pointer_ordered(keys: Seq<(Pointer, KeyProvenance)>) -> bool {
    forall|i: int, j: int| 0 <= i < j < keys.len() ==> !text_less(#[trigger] keys[j].0@, #[trigger] keys[i].0@)
}

fn pointer_chars(p: &Pointer) -> (r: Vec<char>)
    ensures
        r@ == p@,
{
    chars_of(p.as_str())
}

/// Sorts provenance entries by pointer, keeping equal pointers in order.
#[verifier::spinoff_prover]
fn sort_keys(keys: Vec<(Pointer, KeyProvenance)>, pieces: Ghost<int>) -> (r: Vec<(Pointer, KeyProvenance)>)
    requires
        forall|k: int| 0 <= k < keys@.len() ==> provenance_ok(#[trigger] keys@[k].1, pieces@),
    ensures
        pointer_ordered(r@),
        r@.len() == keys@.len(),
        forall|k: int| 0 <= k < r@.len() ==> provenance_ok(#[trigger] r@[k].1, pieces@),
        forall|t: Seq<char>, j: usize| #[trigger] listed(keys@, t, j) ==> listed(r@, t, j),
        forall|k: int| 0 <= k < r@.len() ==> listed(keys@, (#[trigger] r@[k]).0@, r@[k].1.piece),
{
    let ghost whole = keys@;
    let mut rest = keys;
    let mut out: Vec<(Pointer, KeyProvenance)> = Vec::new();
    let total = rest.len();
    let mut i: usize = 0;
    while i < total
        invariant
            i <= total,
            rest@.len() == total - i,
            out@.len() == i,
            pointer_ordered(out@),
            forall|k: int| 0 <= k < rest@.len() ==> provenance_ok(#[trigger] rest@[k].1, pieces@),
            forall|k: int| 0 <= k < out@.len() ==> provenance_ok(#[trigger] out@[k].1, pieces@),
            total == whole.len(),
            rest@ == whole.skip(i as int),
            forall|t: Seq<char>, j: usize| #[trigger] listed(whole.take(i as int), t, j) ==> listed(out@, t, j),
            forall|k: int| 0 <= k < out@.len() ==> listed(whole.take(i as int), (#[trigger] out@[k]).0@, out@[k].1.piece),
        decreases total - i,
    {
        let ghost pending = rest@;
        let item = rest.remove(0);
        proof {
            assert(item == pending[0]);
            assert forall|k: int| 0 <= k < rest@.len() implies provenance_ok(#[trigger] rest@[k].1, pieces@) by {
                assert(rest@[k] == pending[k + 1]);
            }
        }
        let mine = pointer_chars(&item.0);
        let mut k: usize = 0;
        while k < out.len() && compare_text(&mine, &pointer_chars(&out[k].0)) >= 0
            invariant
                k <= out@.len(),
                mine@ == item.0@,
                forall|m: int| 0 <= m < k ==> !text_less(item.0@, #[trigger] out@[m].0@),
            decreases out.len() - k,
        {
            k = k + 1;
        }
        let at = k;
        proof {
            assert forall|m: int| at <= m < out@.len() implies !text_less(#[trigger] out@[m].0@, item.0@) by {
                crate::doc::lemma_text_order_total(item.0@, out@[at as int].0@);
                if m > at {
                    crate::doc::lemma_text_order_total(out@[at as int].0@, out@[m].0@);
                    if text_less(out@[m].0@, item.0@) {
                        if !text_less(out@[m].0@, out@[at as int].0@) {
                            crate::doc::lemma_text_order_transitive(item.0@, out@[at as int].0@, out@[m].0@);
                            crate::doc::lemma_text_order_total(item.0@, out@[m].0@);
                        }
                    }
                } else {
                    crate::doc::lemma_text_order_total(out@[m].0@, item.0@);
                }
            }
        }
        let ghost before = out@;
        out.insert(at, item);
        proof {
            assert forall|a: int, b: int| 0 <= a < b < out@.len() implies !text_less(
                #[trigger] out@[b].0@,
                #[trigger] out@[a].0@,
            ) by {
                if a < at && b == at {
                } else if a == at && b > at {
                    assert(out@[b] == before[b - 1]);
                } else if a < at && b > at {
                    assert(out@[b] == before[b - 1]);
                    assert(out@[a] == before[a]);
                } else if b < at {
                    assert(out@[b] == before[b]);
                    assert(out@[a] == before[a]);
                } else {
                    assert(out@[b] == before[b - 1]);
                    assert(out@[a] == before[a - 1]);
                }
            }
            assert forall|k: int| 0 <= k < out@.len() implies provenance_ok(#[trigger] out@[k].1, pieces@) by {
                if k < at {
                    assert(out@[k] == before[k]);
                } else if k > at {
                    assert(out@[k] == before[k - 1]);
                }
            }
            assert(rest@ =~= whole.skip(i + 1));
            assert(item == whole[i as int]);
            let taken = whole.take(i + 1);
            assert forall|k: int| 0 <= k < out@.len() implies listed(taken, (#[trigger] out@[k]).0@, out@[k].1.piece) by {
                if k == at {
                    assert(taken[i as int] == item);
                } else {
                    let q = if k < at { k } else { k - 1 };
                    assert(out@[k] == before[q]);
                    let m = choose|m: int| 0 <= m < whole.take(i as int).len() && (#[trigger] whole.take(i as int)[m]).0@
                        == before[q].0@ && whole.take(i as int)[m].1.piece == before[q].1.piece;
                    assert(taken[m] == whole.take(i as int)[m]);
                }
            }
            assert forall|t: Seq<char>, j: usize| #[trigger] listed(taken, t, j) implies listed(out@, t, j) by {
                let k = choose|k: int| 0 <= k < taken.len() && (#[trigger] taken[k]).0@ == t && taken[k].1.piece == j;
                if k == i {
                    assert(out@[at as int] == item);
                } else {
                    assert(whole.take(i as int)[k] == taken[k]);
                    assert(listed(whole.take(i as int), t, j));
                    assert(listed(before, t, j));
                    let m = choose|m: int| 0 <= m < before.len() && (#[trigger] before[m]).0@ == t && before[m].1.piece == j;
                    if m < at {
                        assert(out@[m] == before[m]);
                    } else {
                        assert(out@[m + 1] == before[m]);
                    }
                }
            }
        }
        i = i + 1;
    }
    proof {
        assert(whole.take(total as int) =~= whole);
    }
    out
}

/// Whether a pointer text spells a path that ends at something other than
/// an object.
pub open spec fn addresses_leaf(d: Doc, t: Seq<char>) -> bool {
    exists|p: Seq<Seq<char>>| t == encode(p) && #[trigger] path_to_leaf(d, p)
}

/// One composed document and the account of how it got that way.
#[derive(Debug)]
pub struct Composed {
    /// The folded document, every object's keys in ascending order.
    pub document: Doc,
    /// Per-leaf provenance, in pointer order.
    pub keys: Vec<(Pointer, KeyProvenance)>,
}

impl Composed {
    /// The provenance of the leaf at one pointer.
    pub fn key(&self, pointer: &Pointer) -> (r: Option<&KeyProvenance>)
        ensures
            r matches Some(p) ==> exists|i: int| 0 <= i < self.keys@.len() && self.keys@[i].0@ == pointer@
                && &self.keys@[i].1 == p,
            r is None ==> forall|i: int| 0 <= i < self.keys@.len() ==> self.keys@[i].0@ != pointer@,
    {
        let mine = pointer_chars(pointer);
        let mut i: usize = 0;
        while i < self.keys.len()
            invariant
                i <= self.keys@.len(),
                mine@ == pointer@,
                forall|k: int| 0 <= k < i ==> self.keys@[k].0@ != pointer@,
            decreases self.keys.len() - i,
        {
            if compare_text(&pointer_chars(&self.keys[i].0), &mine) == 0 {
                return Some(&self.keys[i].1);
            }
            i = i + 1;
        }
        None
    }
}

/// Folds the pieces left to right under the declared strategies.
///
/// Every piece must be an object, and the first that is not is refused by
/// index. A composed document has exactly the top-level keys that some piece
/// sets, and every object in it lists each key once, in ascending order,
/// whatever order the pieces wrote them in. A top-level key whose last writer
/// set it to a scalar holds that scalar, and when no piece repeats a key
/// within one object, so does every path through objects at any depth. The
/// provenance is in pointer order, and every declared strategy's pointer
/// addresses an array of the composed document. Without declared
/// strategies, such pieces compose exactly when no two of them disagree, at
/// some path, on whether what is there is an object. When no piece repeats a
/// key within one object, the provenance of every path that ends at a
/// non-object names the last piece that wrote anything there, and every
/// provenance entry addresses something other than an object. With no key
/// repeated within one object, the composed document also has something at a
/// path exactly when some piece does, an object there exactly when the last
/// piece to have something there has an object, and an array under a
/// declared strategy holds what that strategy makes, in layer order, of the
/// arrays the pieces wrote there. A type
/// conflict names an earlier piece no later than the arriving one.
pub fn compose(pieces: &Vec<Doc>, strategies: &StrategyTable) -> (r: Result<Composed, MergeError>)
    ensures
        (exists|i: int| 0 <= i < pieces@.len() && !(#[trigger] pieces@[i] is Mapping)) ==> (r matches Err(
            MergeError::NotAnObject { piece },
        ) && 0 <= piece < pieces@.len() && !(pieces@[piece as int] is Mapping) && forall|j: int|
            0 <= j < piece ==> (#[trigger] pieces@[j] is Mapping)),
        (forall|i: int| 0 <= i < pieces@.len() ==> (#[trigger] pieces@[i] is Mapping)) ==> !(r matches Err(
            MergeError::NotAnObject { .. },
        )),
        r matches Ok(c) ==> c.document is Mapping && sorted_doc(c.document) && pointer_ordered(c.keys@),
        r matches Ok(c) ==> forall|k: int| 0 <= k < c.keys@.len() ==> provenance_ok(
            #[trigger] c.keys@[k].1,
            pieces@.len() as int,
        ),
        r matches Ok(c) ==> forall|k: Seq<char>| #[trigger] has_key(c.document, k) <==> pieces_keyed(
            pieces@,
            pieces@.len() as int,
            k,
        ),
        r matches Ok(c) ==> forall|j: int, k: Seq<char>, v: Doc| #[trigger] last_writer(
            pieces@,
            pieces@.len() as int,
            j,
            k,
            v,
        ) ==> holds_entry(c.document, k, v),
        r matches Ok(c) ==> deep_distinct(c.document),
        r matches Ok(c) ==> forall|k: int| 0 <= k < strategies.rows().len() ==> path_to_list(
            c.document,
            decode_spec(#[trigger] strategies.rows()[k].0)->Ok_0,
        ),
        ((forall|i: int| 0 <= i < pieces@.len() ==> (#[trigger] pieces@[i] is Mapping)) && strategies.rows().len() == 0
            && pieces_distinct(pieces@)) ==> (r is Ok <==> no_conflict(pieces@, pieces@.len() as int)),
        r matches Ok(c) ==> (pieces_distinct(pieces@) ==> forall|j: int, p: Seq<Seq<char>>, v: Doc| #[trigger] last_path_writer(
            pieces@,
            pieces@.len() as int,
            j,
            p,
            v,
        ) ==> path_holds(c.document, p, v)),
        r matches Ok(c) ==> (pieces_distinct(pieces@) ==> forall|j: int, p: Seq<Seq<char>>| #[trigger] last_leaf_writer(
            pieces@,
            pieces@.len() as int,
            j,
            p,
        ) ==> listed(c.keys@, encode(p), j as usize)),
        r matches Ok(c) ==> forall|k: int| 0 <= k < c.keys@.len() ==> addresses_leaf(c.document, (#[trigger] c.keys@[k]).0@),
        r matches Err(MergeError::TypeConflict { earlier, later, .. }) ==> earlier <= later < pieces@.len(),
        r matches Ok(c) ==> (pieces_distinct(pieces@) ==> forall|p: Seq<Seq<char>>| p.len() > 0 && (#[trigger] row_strategy(
            strategies.rows(),
            encode(p),
        )) is Some && declared_fold(pieces@, pieces@.len() as int, p, row_strategy(strategies.rows(), encode(p))->0) is Some
            ==> path_view(
            c.document,
            p,
            canon_view(
                DocView::List(declared_fold(pieces@, pieces@.len() as int, p, row_strategy(strategies.rows(), encode(p))->0)->0),
            ),
        )),
        r matches Ok(c) ==> (pieces_distinct(pieces@) ==> forall|k: int| 0 <= k < strategies.rows().len() ==> (declared_fold(
            pieces@,
            pieces@.len() as int,
            decode_spec(#[trigger] strategies.rows()[k].0)->Ok_0,
            strategies.rows()[k].1,
        ) matches Some(l) && path_view(c.document, decode_spec(strategies.rows()[k].0)->Ok_0, canon_view(DocView::List(l))))),
        r matches Ok(c) ==> (pieces_distinct(pieces@) ==> forall|q: Seq<Seq<char>>, b: bool| q.len() > 0 ==> (
        #[trigger] doc_is(c.document, q, b) <==> kind_last(pieces@, pieces@.len() as int, q) == Some(b))),
        r matches Ok(c) ==> (pieces_distinct(pieces@) ==> forall|q: Seq<Seq<char>>| q.len() > 0 ==> ((#[trigger] path_value(
            c.document,
            q,
        )) is Some <==> exists|j: int| 0 <= j < pieces@.len() && (#[trigger] path_value(pieces@[j], q)) is Some)),
{
    let mut i: usize = 0;
    while i < pieces.len()
        invariant
            i <= pieces@.len(),
            forall|j: int| 0 <= j < i ==> (#[trigger] pieces@[j] is Mapping),
        decreases pieces.len() - i,
    {
        if !is_mapping(&pieces[i]) {
            return Err(MergeError::NotAnObject { piece: i });
        }
        i = i + 1;
    }
    let mut root: Vec<(String, Node)> = Vec::new();
    let mut index: usize = 0;
    while index < pieces.len()
        invariant
            index <= pieces@.len(),
            forall|j: int| 0 <= j < pieces@.len() ==> (#[trigger] pieces@[j] is Mapping),
            members_ok(root@, index as int),
            forall|k: Seq<char>| #[trigger] member_named(root@, k) <==> pieces_keyed(pieces@, index as int, k),
            distinct_members(root@),
            members_distinct(root@),
            forall|j: int, k: Seq<char>, v: Doc| #[trigger] last_writer(pieces@, index as int, j, k, v) ==> member_leaf(
                root@,
                k,
                v,
            ),
            pieces_distinct(pieces@) ==> forall|j: int, p: Seq<Seq<char>>, v: Doc| #[trigger] last_path_writer(
                pieces@,
                index as int,
                j,
                p,
                v,
            ) ==> tree_holds(root@, p, v),
            pieces_distinct(pieces@) ==> forall|p: Seq<Seq<char>>, b: bool| p.len() > 0 ==> (#[trigger] tree_is(
                root@,
                p,
                b,
            ) <==> kind_last(pieces@, index as int, p) == Some(b)),
            (strategies.rows().len() == 0 && pieces_distinct(pieces@)) ==> no_conflict(pieces@, index as int),
            pieces_distinct(pieces@) ==> forall|j: int, p: Seq<Seq<char>>| #[trigger] last_leaf_writer(
                pieces@,
                index as int,
                j,
                p,
            ) ==> tree_from(root@, p, j as usize),
            pieces_distinct(pieces@) ==> forall|p: Seq<Seq<char>>| p.len() > 0 && (#[trigger] row_strategy(
                strategies.rows(),
                encode(p),
            )) is Some ==> match declared_fold(pieces@, index as int, p, row_strategy(strategies.rows(), encode(p))->0) {
                Some(l) => holds_list(root@, p, l),
                None => !holds_some_list(root@, p),
            },
        decreases pieces.len() - index,
    {
        let ghost before = root@;
        proof {
            assert forall|k: int| 0 <= k < root@.len() implies node_ok(#[trigger] root@[k].1, index + 1) by {
                lemma_node_ok_grows(root@[k].1, index as int, index + 1);
            }
        }
        let mut path: Vec<String> = Vec::new();
        proof {
            assert(texts(path@) =~= Seq::<Seq<char>>::empty());
        }
        let ghost previous = root@;
        root = match &pieces[index] {
            Doc::Mapping(source) => match absorb(root, &mut path, index, source, strategies) {
                Ok(ms) => ms,
                Err(e) => {
                    proof {
                        if strategies.rows().len() == 0 && pieces_distinct(pieces@) {
                            assert(deep_distinct(pieces@[index as int]));
                            let (p, b) = choose|p: Seq<Seq<char>>, b: bool| #[trigger] tree_is(previous, p, b) && doc_is(
                                pieces@[index as int],
                                p,
                                !b,
                            );
                            lemma_kind_last_some(pieces@, index as int, p, b);
                            let i = choose|i: int| 0 <= i < index && #[trigger] doc_is(pieces@[i], p, b);
                            assert(!no_conflict(pieces@, pieces@.len() as int));
                        }
                    }
                    return Err(e);
                },
            },
            _ => root,
        };
        proof {
            if pieces_distinct(pieces@) {
                let here = pieces@[index as int];
                assert(deep_distinct(here));
                assert(here == Doc::Mapping(here->Mapping_0));
                assert forall|p: Seq<Seq<char>>| p.len() > 0 && (#[trigger] row_strategy(strategies.rows(), encode(p))) is Some
                    implies (match declared_fold(pieces@, index + 1, p, row_strategy(strategies.rows(), encode(p))->0) {
                    Some(l) => holds_list(root@, p, l),
                    None => !holds_some_list(root@, p),
                }) by {
                    let st = row_strategy(strategies.rows(), encode(p))->0;
                    assert(Seq::<Seq<char>>::empty() + p =~= p);
                    match path_value(here, p) {
                        None => {
                            assert(declared_fold(pieces@, index + 1, p, st) == declared_fold(pieces@, index as int, p, st));
                            match declared_fold(pieces@, index as int, p, st) {
                                Some(l) => {
                                    let v = choose|v: Doc| #[trigger] tree_holds(previous, p, v) && doc_view(v)
                                        == DocView::List(l);
                                    assert(tree_holds(root@, p, v));
                                },
                                None => {
                                    if holds_some_list(root@, p) {
                                        let v = choose|v: Doc| #[trigger] tree_holds(root@, p, v) && v is List;
                                        assert(tree_holds(previous, p, v));
                                    }
                                },
                            }
                        },
                        Some(Doc::List(items)) => {
                            assert(list_at(here, p) == Some(views(items@)));
                            match declared_fold(pieces@, index as int, p, st) {
                                Some(l) => {
                                    assert(declared_fold(pieces@, index + 1, p, st) == combine(st, l, views(items@)));
                                    assert(holds_list(previous, p, l));
                                    assert(combined_at(strategies.rows(), encode(p), l, views(items@)) == combine(
                                        st,
                                        l,
                                        views(items@),
                                    ));
                                    assert(holds_list_in(root@, p, combine(st, l, views(items@))));
                                },
                                None => {
                                    assert(declared_fold(pieces@, index + 1, p, st) == Some(views(items@)));
                                    assert(!holds_some_list(previous, p));
                                    assert(holds_list(root@, p, views(items@)));
                                },
                            }
                        },
                        Some(x) => {
                            assert(declared_fold(pieces@, index + 1, p, st) is None);
                            if holds_some_list(root@, p) {
                                let w = choose|w: Doc| #[trigger] tree_holds(root@, p, w) && w is List;
                                if x is Mapping {
                                    assert(doc_is(here, p, true));
                                    assert(tree_is(root@, p, true));
                                    lemma_tree_object_or_leaf(root@, p, w);
                                } else {
                                    assert(is_scalar(x));
                                    assert(tree_holds(root@, p, x));
                                    lemma_tree_functional(root@, p, x, w);
                                }
                            }
                        },
                    }
                }
                assert forall|j: int, p: Seq<Seq<char>>| #[trigger] last_leaf_writer(pieces@, index + 1, j, p) implies tree_from(
                    root@,
                    p,
                    j as usize,
                ) by {
                    if j < index {
                        assert(last_leaf_writer(pieces@, index as int, j, p));
                        assert(path_value(pieces@[index as int], p) is None);
                    }
                }
                assert forall|p: Seq<Seq<char>>, b: bool| p.len() > 0 implies (#[trigger] tree_is(root@, p, b) <==> kind_last(
                    pieces@,
                    index + 1,
                    p,
                ) == Some(b)) by {
                    assert(kind_last(pieces@, index + 1, p) == (if path_value(pieces@[index as int], p) is Some {
                        Some(path_value(pieces@[index as int], p).unwrap() is Mapping)
                    } else {
                        kind_last(pieces@, index as int, p)
                    }));
                }
                if strategies.rows().len() == 0 {
                    assert(!clash(previous, pieces@[index as int]));
                    assert forall|i: int, j: int, p: Seq<Seq<char>>, bi: bool, bj: bool|
                        0 <= i < j < index + 1 && #[trigger] doc_is(pieces@[i], p, bi) && #[trigger] doc_is(pieces@[j], p, bj)
                        implies bi == bj by {
                        if j == index && bi != bj {
                            if p.len() == 0 {
                                assert(path_value(pieces@[i], p) == Some(pieces@[i]));
                                assert(path_value(pieces@[j], p) == Some(pieces@[j]));
                            } else {
                                lemma_kind_last_defined(pieces@, index as int, p, i);
                                let kb = kind_last(pieces@, index as int, p).unwrap();
                                assert(tree_is(previous, p, kb));
                                if kb != bj {
                                    assert(doc_is(pieces@[index as int], p, !kb));
                                    assert(clash(previous, pieces@[index as int]));
                                }
                                lemma_kind_last_some(pieces@, index as int, p, kb);
                                let l = choose|l: int| 0 <= l < index && #[trigger] doc_is(pieces@[l], p, kb);
                                if l < i {
                                    assert(no_conflict(pieces@, index as int));
                                    assert(doc_is(pieces@[l], p, kb) && doc_is(pieces@[i], p, bi));
                                } else if i < l {
                                    assert(doc_is(pieces@[i], p, bi) && doc_is(pieces@[l], p, kb));
                                }
                            }
                        }
                    }
                }
            }
            assert forall|k: Seq<char>| #[trigger] member_named(root@, k) <==> pieces_keyed(pieces@, index + 1, k) by {
                assert(member_named(before, k) <==> pieces_keyed(pieces@, index as int, k));
                if pieces_keyed(pieces@, index + 1, k) {
                    let j = choose|j: int| 0 <= j < index + 1 && #[trigger] has_key(pieces@[j], k);
                    if j < index {
                        assert(pieces_keyed(pieces@, index as int, k));
                    }
                }
                if pieces_keyed(pieces@, index as int, k) {
                    let j = choose|j: int| 0 <= j < index && #[trigger] has_key(pieces@[j], k);
                    assert(pieces_keyed(pieces@, index + 1, k));
                }
                if has_key(pieces@[index as int], k) {
                    assert(pieces_keyed(pieces@, index + 1, k));
                }
            }
            assert forall|j: int, k: Seq<char>, v: Doc| #[trigger] last_writer(pieces@, index + 1, j, k, v)
                implies member_leaf(root@, k, v) by {
                if j < index {
                    assert(last_writer(pieces@, index as int, j, k, v));
                    assert(!has_key(pieces@[index as int], k));
                }
            }
            if pieces_distinct(pieces@) {
                assert(deep_distinct(pieces@[index as int]));
                assert forall|j: int, p: Seq<Seq<char>>, v: Doc| #[trigger] last_path_writer(pieces@, index + 1, j, p, v)
                    implies tree_holds(root@, p, v) by {
                    if j < index {
                        assert(last_path_writer(pieces@, index as int, j, p, v));
                        assert(path_value(pieces@[index as int], p) is None);
                    }
                }
            }
        }
        index = index + 1;
    }
    verify_every_strategy_applied(&root, strategies)?;
    let mut found: Vec<(Pointer, KeyProvenance)> = Vec::new();
    let mut path: Vec<String> = Vec::new();
    let ghost start = path@;
    collect(&root, &mut path, &mut found, Ghost(pieces@.len() as int));
    let ghost gathered = found@;
    let keys = sort_keys(found, Ghost(pieces@.len() as int));
    proof {
        assert(texts(start) =~= Seq::<Seq<char>>::empty());
        if pieces_distinct(pieces@) {
            assert forall|j: int, p: Seq<Seq<char>>| #[trigger] last_leaf_writer(
                pieces@,
                pieces@.len() as int,
                j,
                p,
            ) implies listed(keys@, encode(p), j as usize) by {
                assert(tree_from(root@, p, j as usize));
                assert(texts(start) + p =~= p);
                assert(listed(gathered, encode(p), j as usize));
            }
        }
    }
    let ghost tree = root@;
    let raw = document_of(root);
    let document = canonicalize(raw);
    proof {
        if pieces_distinct(pieces@) {
            let n = pieces@.len() as int;
            assert forall|q: Seq<Seq<char>>, b: bool| q.len() > 0 implies (#[trigger] doc_is(document, q, b) <==> kind_last(
                pieces@,
                n,
                q,
            ) == Some(b)) by {
                lemma_kind_value(document, q, b);
                assert(tree_is(tree, q, b) <==> kind_last(pieces@, n, q) == Some(b));
                assert(path_kind(raw, q, b) <==> tree_is(tree, q, b));
                assert(path_kind(document, q, b) <==> path_kind(raw, q, b));
            }
            assert forall|q: Seq<Seq<char>>| q.len() > 0 implies ((#[trigger] path_value(document, q)) is Some <==> exists|
                j: int,
            | 0 <= j < n && (#[trigger] path_value(pieces@[j], q)) is Some) by {
                if path_value(document, q) is Some {
                    let b = path_value(document, q).unwrap() is Mapping;
                    assert(doc_is(document, q, b));
                    lemma_kind_last_some(pieces@, n, q, b);
                    let i = choose|i: int| 0 <= i < n && #[trigger] doc_is(pieces@[i], q, b);
                    assert(path_value(pieces@[i], q) is Some);
                }
                if exists|j: int| 0 <= j < n && (#[trigger] path_value(pieces@[j], q)) is Some {
                    let j = choose|j: int| 0 <= j < n && (#[trigger] path_value(pieces@[j], q)) is Some;
                    lemma_kind_last_defined(pieces@, n, q, j);
                    let b = kind_last(pieces@, n, q).unwrap();
                    assert(doc_is(document, q, b));
                }
            }
        }
        if pieces_distinct(pieces@) {
            assert forall|p: Seq<Seq<char>>| p.len() > 0 && (#[trigger] row_strategy(strategies.rows(), encode(p))) is Some
                && declared_fold(pieces@, pieces@.len() as int, p, row_strategy(strategies.rows(), encode(p))->0) is Some
                implies path_view(
                document,
                p,
                canon_view(
                    DocView::List(declared_fold(pieces@, pieces@.len() as int, p, row_strategy(strategies.rows(), encode(p))->0)->0),
                ),
            ) by {
                let l = declared_fold(pieces@, pieces@.len() as int, p, row_strategy(strategies.rows(), encode(p))->0)->0;
                assert(holds_list(tree, p, l));
                let v = choose|v: Doc| #[trigger] tree_holds(tree, p, v) && doc_view(v) == DocView::List(l);
                assert(path_holds(raw, p, v));
                lemma_holds_view(raw, p, v);
            }
            let rows = strategies.rows();
            assert forall|k: int| 0 <= k < rows.len() implies (declared_fold(
                pieces@,
                pieces@.len() as int,
                decode_spec(#[trigger] rows[k].0)->Ok_0,
                rows[k].1,
            ) matches Some(l) && path_view(document, decode_spec(rows[k].0)->Ok_0, canon_view(DocView::List(l)))) by {
                let p = decode_spec(rows[k].0)->Ok_0;
                assert(encode(p) == rows[k].0);
                assert(reaches_list(tree, p));
                let v = choose|v: Doc| v is List && #[trigger] tree_holds(tree, p, v);
                assert(p.len() > 0);
                assert(holds_some_list(tree, p));
                lemma_row_strategy(rows, k);
            }
        }
        assert forall|k: int| 0 <= k < keys@.len() implies addresses_leaf(document, (#[trigger] keys@[k]).0@) by {
            let m = choose|m: int| 0 <= m < gathered.len() && (#[trigger] gathered[m]).0@ == keys@[k].0@
                && gathered[m].1.piece == keys@[k].1.piece;
            let p = choose|p: Seq<Seq<char>>| (#[trigger] gathered[m]).0@ == encode(texts(start) + p) && tree_from(
                tree,
                p,
                gathered[m].1.piece,
            );
            assert(texts(start) + p =~= p);
            lemma_from_holds(tree, p, gathered[m].1.piece, pieces@.len() as int);
            let v = choose|v: Doc| #[trigger] tree_holds(tree, p, v) && !(v is Mapping);
            assert(path_holds(raw, p, v));
            lemma_holds_leaf(raw, p, v);
            assert(path_to_leaf(document, p));
        }
        assert forall|k: int| 0 <= k < strategies.rows().len() implies path_to_list(
            document,
            decode_spec(#[trigger] strategies.rows()[k].0)->Ok_0,
        ) by {
            let t = decode_spec(strategies.rows()[k].0)->Ok_0;
            assert(reaches_list(tree, t));
            let v = choose|v: Doc| v is List && #[trigger] tree_holds(tree, t, v);
            assert(path_holds(raw, t, v));
            lemma_holds_list(raw, t, v);
        }
    }
    Ok(Composed { document, keys })
}
} // verus!
