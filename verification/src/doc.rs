//! A parsed YAML or JSON document, as plain values, and the text order keys sort by.

use vstd::prelude::*;

use crate::text::chars_of;

verus! {

/// One node of a parsed document.
///
/// A mapping keeps its entries in document order, duplicates included, so a
/// reader can refuse a key written twice instead of silently keeping the last.
#[derive(Debug)]
pub enum Doc {
    Null,
    Bool(bool),
    /// A number, as its source spelling.
    Number(String),
    Text(String),
    List(Vec<Doc>),
    Mapping(Vec<(Doc, Doc)>),
}

/// A node as a mathematical value: texts as character sequences and
/// lists and mappings as sequences, so that two nodes with the same content
/// are equal.
pub enum DocView {
    Null,
    Bool(bool),
    Number(Seq<char>),
    Text(Seq<char>),
    List(Seq<DocView>),
    Mapping(Seq<(DocView, DocView)>),
}

/// The content of a node.
pub open spec fn doc_view(d: Doc) -> DocView
    decreases d,
{
    match d {
        Doc::Null => DocView::Null,
        Doc::Bool(b) => DocView::Bool(b),
        Doc::Number(t) => DocView::Number(t@),
        Doc::Text(t) => DocView::Text(t@),
        Doc::List(items) => DocView::List(
            Seq::new(
                items@.len(),
                |i: int|
                    if 0 <= i < items@.len() {
                        proof {
                            assert(decreases_to!(d => items@[i]));
                        }
                        doc_view(items@[i])
                    } else {
                        DocView::Null
                    },
            ),
        ),
        Doc::Mapping(e) => DocView::Mapping(
            Seq::new(
                e@.len(),
                |i: int|
                    if 0 <= i < e@.len() {
                        proof {
                            assert(decreases_to!(d => e@[i].0));
                            assert(decreases_to!(d => e@[i].1));
                        }
                        (doc_view(e@[i].0), doc_view(e@[i].1))
                    } else {
                        (DocView::Null, DocView::Null)
                    },
            ),
        ),
    }
}

/// The content of mapping entries, key and value each by its content.
pub open spec fn entries_view(e: Seq<(Doc, Doc)>) -> Seq<(DocView, DocView)> {
    Seq::new(e.len(), |i: int| (doc_view(e[i].0), doc_view(e[i].1)))
}

/// The content of a mapping is the content of its entries.
pub proof fn lemma_mapping_view(e: Vec<(Doc, Doc)>)
    ensures
        doc_view(Doc::Mapping(e)) == DocView::Mapping(entries_view(e@)),
{
    assert(doc_view(Doc::Mapping(e))->Mapping_0 =~= entries_view(e@));
}

/// The key text of a mapping key's content; a key that is not text reads as
/// the empty text.
pub open spec fn view_key(k: DocView) -> Seq<char> {
    match k {
        DocView::Text(t) => t,
        _ => Seq::empty(),
    }
}

/// Where an entry with key text `k` goes among ordered entries: before the
/// first entry whose key is greater, or at the end.
pub open spec fn insertion_point(t: Seq<(DocView, DocView)>, k: Seq<char>) -> int {
    if exists|a: int| 0 <= a < t.len() && text_less(k, view_key((#[trigger] t[a]).0)) && forall|b: int|
        0 <= b < a ==> !text_less(k, view_key(t[b].0)) {
        choose|a: int| 0 <= a < t.len() && text_less(k, view_key((#[trigger] t[a]).0)) && forall|b: int|
            0 <= b < a ==> !text_less(k, view_key(t[b].0))
    } else {
        t.len() as int
    }
}

/// A node's content with every mapping's entries in ascending key order, at
/// every depth; entries with equal keys keep their order.
pub open spec fn canon_view(d: DocView) -> DocView
    decreases d, 1int, 0int,
{
    match d {
        DocView::List(items) => DocView::List(
            Seq::new(
                items.len(),
                |i: int|
                    if 0 <= i < items.len() {
                        proof {
                            assert(decreases_to!(d => items[i]));
                        }
                        canon_view(items[i])
                    } else {
                        DocView::Null
                    },
            ),
        ),
        DocView::Mapping(entries) => DocView::Mapping(ordered_entries(entries, entries.len() as int)),
        _ => d,
    }
}

/// The first `n` entries, each value in canonical order, inserted one by
/// one after every entry whose key is not greater.
pub open spec fn ordered_entries(entries: Seq<(DocView, DocView)>, n: int) -> Seq<(DocView, DocView)>
    decreases entries, 0int, n,
{
    if n <= 0 || n > entries.len() {
        Seq::empty()
    } else {
        let t = ordered_entries(entries, n - 1);
        proof {
            assert(decreases_to!(entries => entries[n - 1]));
            assert(decreases_to!(entries[n - 1] => entries[n - 1].1));
        }
        let e = (entries[n - 1].0, canon_view(entries[n - 1].1));
        t.insert(insertion_point(t, view_key(e.0)), e)
    }
}

/// The word a diagnostic uses for a node's type./// The word a diagnostic uses for a node's type.
pub open spec fn kind_word(d: Doc) -> Seq<char> {
    match d {
        Doc::Null => "null"@,
        Doc::Bool(_) => "boolean"@,
        Doc::Number(_) => "number"@,
        Doc::Text(_) => "string"@,
        Doc::List(_) => "array"@,
        Doc::Mapping(_) => "object"@,
    }
}

impl Doc {
    /// Returns the word a diagnostic uses for this node's type.
    pub fn kind_name(&self) -> (r: &'static str)
        ensures
            r@ == kind_word(*self),
    {
        match self {
            Doc::Null => "null",
            Doc::Bool(_) => "boolean",
            Doc::Number(_) => "number",
            Doc::Text(_) => "string",
            Doc::List(_) => "array",
            Doc::Mapping(_) => "object",
        }
    }
}

/// Strict lexicographic order on texts, character by character; for UTF-8 it
/// is also the byte order.
pub open spec fn text_less(a: Seq<char>, b: Seq<char>) -> bool
    decreases a.len(),
{
    if a.len() == 0 {
        b.len() > 0
    } else if b.len() == 0 {
        false
    } else if a[0] != b[0] {
        a[0] < b[0]
    } else {
        text_less(a.skip(1), b.skip(1))
    }
}

/// Exactly one of less, equal and greater holds.
pub proof fn lemma_text_order_total(a: Seq<char>, b: Seq<char>)
    ensures
        text_less(a, b) || a == b || text_less(b, a),
        !(text_less(a, b) && text_less(b, a)),
        !(text_less(a, b) && a == b),
    decreases a.len(),
{
    if a.len() > 0 && b.len() > 0 && a[0] == b[0] {
        lemma_text_order_total(a.skip(1), b.skip(1));
        if a.skip(1) == b.skip(1) {
            assert(a =~= seq![a[0]] + a.skip(1));
            assert(b =~= seq![b[0]] + b.skip(1));
        }
    } else if a.len() == 0 && b.len() == 0 {
        assert(a =~= b);
    }
}

/// The order is transitive.
pub proof fn lemma_text_order_transitive(a: Seq<char>, b: Seq<char>, c: Seq<char>)
    requires
        text_less(a, b),
        text_less(b, c),
    ensures
        text_less(a, c),
    decreases a.len(),
{
    if a.len() > 0 && b.len() > 0 && c.len() > 0 && a[0] == b[0] && b[0] == c[0] {
        lemma_text_order_transitive(a.skip(1), b.skip(1), c.skip(1));
    }
}

/// Compares two texts: negative when `a` sorts first, zero when equal,
/// positive when `b` sorts first.
pub fn compare_text(a: &Vec<char>, b: &Vec<char>) -> (r: i8)
    ensures
        r < 0 <==> text_less(a@, b@),
        r == 0 <==> a@ == b@,
        r > 0 <==> text_less(b@, a@),
{
    let mut i: usize = 0;
    proof {
        assert(a@.skip(0) =~= a@);
        assert(b@.skip(0) =~= b@);
    }
    while i < a.len() && i < b.len() && a[i] == b[i]
        invariant
            i <= a@.len(),
            i <= b@.len(),
            a@.take(i as int) == b@.take(i as int),
            text_less(a@, b@) == text_less(a@.skip(i as int), b@.skip(i as int)),
            text_less(b@, a@) == text_less(b@.skip(i as int), a@.skip(i as int)),
            (a@ == b@) == (a@.skip(i as int) == b@.skip(i as int)),
        decreases a.len() - i,
    {
        proof {
            let sa = a@.skip(i as int);
            let sb = b@.skip(i as int);
            assert(sa.skip(1) =~= a@.skip(i + 1));
            assert(sb.skip(1) =~= b@.skip(i + 1));
            assert(a@.take(i + 1) =~= a@.take(i as int).push(a@[i as int]));
            assert(b@.take(i + 1) =~= b@.take(i as int).push(b@[i as int]));
            if a@.skip(i + 1) == b@.skip(i + 1) {
                assert(sa =~= seq![sa[0]] + sa.skip(1));
                assert(sb =~= seq![sb[0]] + sb.skip(1));
            }
            if sa == sb {
                assert(sa.skip(1) == sb.skip(1));
            }
        }
        i = i + 1;
    }
    let ghost sa = a@.skip(i as int);
    let ghost sb = b@.skip(i as int);
    if i == a.len() && i == b.len() {
        proof {
            assert(sa =~= sb);
        }
        0
    } else if i == a.len() {
        proof {
            assert(sa.len() == 0 && sb.len() > 0);
        }
        -1
    } else if i == b.len() {
        1
    } else if a[i] < b[i] {
        proof {
            assert(sa[0] == a@[i as int] && sb[0] == b@[i as int]);
            assert(sa != sb);
        }
        -1
    } else {
        proof {
            assert(sa[0] == a@[i as int] && sb[0] == b@[i as int]);
            assert(sa != sb);
        }
        1
    }
}

/// The value under the last entry whose key is the text `key`: a later entry
/// for the same key replaces an earlier one, as a JSON object reader keeps it.
pub open spec fn entry_value(entries: Seq<(Doc, Doc)>, key: Seq<char>) -> Option<Doc>
    decreases entries.len(),
{
    if entries.len() == 0 {
        None
    } else if entries.last().0 matches Doc::Text(k) && k@ == key {
        Some(entries.last().1)
    } else {
        entry_value(entries.drop_last(), key)
    }
}

/// The content under the last entry whose key is the text `key`, read from
/// entries' contents.
pub open spec fn view_entry(entries: Seq<(DocView, DocView)>, key: Seq<char>) -> Option<DocView>
    decreases entries.len(),
{
    if entries.len() == 0 {
        None
    } else if entries.last().0 matches DocView::Text(k) && k == key {
        Some(entries.last().1)
    } else {
        view_entry(entries.drop_last(), key)
    }
}

/// Looking an entry up reads the same content from the entries as from
/// their contents.
pub proof fn lemma_entry_view(e: Seq<(Doc, Doc)>, key: Seq<char>)
    ensures
        view_entry(entries_view(e), key) == match entry_value(e, key) {
            Some(d) => Some(doc_view(d)),
            None => None::<DocView>,
        },
    decreases e.len(),
{
    if e.len() > 0 {
        assert(entries_view(e).drop_last() =~= entries_view(e.drop_last()));
        lemma_entry_view(e.drop_last(), key);
    }
}

/// Finds the value under the last entry whose key is the text `key`.
pub fn entry<'a>(entries: &'a Vec<(Doc, Doc)>, key: &str) -> (r: Option<&'a Doc>)
    ensures
        match entry_value(entries@, key@) {
            Some(d) => r == Some(&d),
            None => r is None,
        },
{
    let mut i: usize = entries.len();
    proof {
        assert(entries@.take(i as int) =~= entries@);
    }
    while i > 0
        invariant
            i <= entries@.len(),
            entry_value(entries@, key@) == entry_value(entries@.take(i as int), key@),
        decreases i,
    {
        let ghost prefix = entries@.take(i as int);
        proof {
            assert(prefix.drop_last() =~= entries@.take(i - 1));
            assert(prefix.last() == entries@[i - 1]);
        }
        let (k, v) = &entries[i - 1];
        if let Doc::Text(text) = k {
            if crate::text::same_text(text.as_str(), key) {
                return Some(v);
            }
        }
        i = i - 1;
    }
    None
}


/// Whether every mapping in a node, at any depth, lists its keys in
/// ascending text order.
pub open spec fn sorted_doc(d: Doc) -> bool
    decreases d,
{
    match d {
        Doc::List(items) => forall|i: int| 0 <= i < items@.len() ==> sorted_doc(#[trigger] items@[i]),
        Doc::Mapping(entries) => {
            &&& forall|i: int, j: int| 0 <= i < j < entries@.len() ==> !text_less(
                key_text(#[trigger] entries@[j].0),
                key_text(#[trigger] entries@[i].0),
            )
            &&& forall|i: int| 0 <= i < entries@.len() ==> sorted_doc(#[trigger] entries@[i].1)
        },
        _ => true,
    }
}

/// The text of a mapping key; a key that is not text reads as empty, and a
/// JSON document has none.
pub open spec fn key_text(k: Doc) -> Seq<char> {
    match k {
        Doc::Text(t) => t@,
        _ => Seq::empty(),
    }
}

/// Whether some entry of a list of mapping entries has the key text `k`.
pub open spec fn entry_keyed(e: Seq<(Doc, Doc)>, k: Seq<char>) -> bool {
    exists|m: int| 0 <= m < e.len() && #[trigger] key_text(e[m].0) == k
}

/// Whether a node is a scalar: null, a boolean, a number or a text.
pub open spec fn is_scalar(d: Doc) -> bool {
    d is Null || d is Bool || d is Number || d is Text
}

/// Whether some entry of a list of mapping entries has the key text `k` and
/// the value `v`.
pub open spec fn entry_holds(e: Seq<(Doc, Doc)>, k: Seq<char>, v: Doc) -> bool {
    exists|m: int| 0 <= m < e.len() && #[trigger] key_text(e[m].0) == k && e[m].1 == v
}

/// Whether no two entries of a list of mapping entries share a key text.
pub open spec fn distinct_keys(e: Seq<(Doc, Doc)>) -> bool {
    forall|a: int, b: int| 0 <= a < b < e.len() ==> key_text(#[trigger] e[a].0) != key_text(#[trigger] e[b].0)
}

/// Whether a node is a mapping whose entry under `k` holds `v`.
pub open spec fn holds_entry(d: Doc, k: Seq<char>, v: Doc) -> bool {
    d matches Doc::Mapping(e) && entry_holds(e@, k, v)
}

/// The value under the last entry whose key text is `k`.
pub open spec fn keyed_value(e: Seq<(Doc, Doc)>, k: Seq<char>) -> Option<Doc>
    decreases e.len(),
{
    if e.len() == 0 {
        None
    } else if key_text(e.last().0) == k {
        Some(e.last().1)
    } else {
        keyed_value(e.drop_last(), k)
    }
}

/// The value at a path of keys, each read from the last entry under it.
pub open spec fn path_value(d: Doc, p: Seq<Seq<char>>) -> Option<Doc>
    decreases p.len(),
{
    if p.len() == 0 {
        Some(d)
    } else {
        match d {
            Doc::Mapping(e) => match keyed_value(e@, p[0]) {
                Some(x) => path_value(x, p.skip(1)),
                None => None,
            },
            _ => None,
        }
    }
}

/// Whether some entry of a list of mapping entries has the key `p[0]` and a
/// value in which the rest of the path holds `v`.
pub open spec fn entries_hold_path(e: Seq<(Doc, Doc)>, p: Seq<Seq<char>>, v: Doc) -> bool
    decreases p.len(), 0nat,
{
    p.len() > 0 && exists|m: int| 0 <= m < e.len() && #[trigger] key_text(e[m].0) == p[0] && path_holds(
        e[m].1,
        p.skip(1),
        v,
    )
}

/// Whether some chain of entries spells the path `p` and ends at `v`.
pub open spec fn path_holds(d: Doc, p: Seq<Seq<char>>, v: Doc) -> bool
    decreases p.len(), 1nat,
{
    if p.len() == 0 {
        d == v
    } else {
        d matches Doc::Mapping(e) && entries_hold_path(e@, p, v)
    }
}

/// Whether some entry has the key `p[0]` and a value in which the rest of
/// the path reaches a list.
pub open spec fn entries_reach_list(e: Seq<(Doc, Doc)>, p: Seq<Seq<char>>) -> bool
    decreases p.len(), 0nat,
{
    p.len() > 0 && exists|m: int| 0 <= m < e.len() && #[trigger] key_text(e[m].0) == p[0] && path_to_list(
        e[m].1,
        p.skip(1),
    )
}

/// Whether some chain of entries spells the path `p` and ends at a list.
pub open spec fn path_to_list(d: Doc, p: Seq<Seq<char>>) -> bool
    decreases p.len(), 1nat,
{
    if p.len() == 0 {
        d is List
    } else {
        d matches Doc::Mapping(e) && entries_reach_list(e@, p)
    }
}

/// A path that holds a list reaches a list.
pub proof fn lemma_holds_list(d: Doc, p: Seq<Seq<char>>, v: Doc)
    requires
        path_holds(d, p, v),
        v is List,
    ensures
        path_to_list(d, p),
    decreases p.len(),
{
    if p.len() > 0 {
        if let Doc::Mapping(e) = d {
            let m = choose|m: int| 0 <= m < e@.len() && #[trigger] key_text(e@[m].0) == p[0] && path_holds(
                e@[m].1,
                p.skip(1),
                v,
            );
            lemma_holds_list(e@[m].1, p.skip(1), v);
            assert(entries_reach_list(e@, p));
        }
    }
}

/// Whether some entry has the key `p[0]` and a value in which the rest of
/// the path reaches something other than a mapping.
pub open spec fn entries_reach_leaf(e: Seq<(Doc, Doc)>, p: Seq<Seq<char>>) -> bool
    decreases p.len(), 0nat,
{
    p.len() > 0 && exists|m: int| 0 <= m < e.len() && #[trigger] key_text(e[m].0) == p[0] && path_to_leaf(
        e[m].1,
        p.skip(1),
    )
}

/// Whether some chain of entries spells the path `p` and ends at something
/// other than a mapping.
pub open spec fn path_to_leaf(d: Doc, p: Seq<Seq<char>>) -> bool
    decreases p.len(), 1nat,
{
    if p.len() == 0 {
        !(d is Mapping)
    } else {
        d matches Doc::Mapping(e) && entries_reach_leaf(e@, p)
    }
}

/// A path that holds something other than a mapping reaches it.
pub proof fn lemma_holds_leaf(d: Doc, p: Seq<Seq<char>>, v: Doc)
    requires
        path_holds(d, p, v),
        !(v is Mapping),
    ensures
        path_to_leaf(d, p),
    decreases p.len(),
{
    if p.len() > 0 {
        if let Doc::Mapping(e) = d {
            let m = choose|m: int| 0 <= m < e@.len() && #[trigger] key_text(e@[m].0) == p[0] && path_holds(
                e@[m].1,
                p.skip(1),
                v,
            );
            lemma_holds_leaf(e@[m].1, p.skip(1), v);
            assert(entries_reach_leaf(e@, p));
        }
    }
}

/// Whether some entry has the key `p[0]` and a value in which the rest of
/// the path reaches a node with content `w`.
pub open spec fn entries_reach_view(e: Seq<(Doc, Doc)>, p: Seq<Seq<char>>, w: DocView) -> bool
    decreases p.len(), 0nat,
{
    p.len() > 0 && exists|m: int| 0 <= m < e.len() && #[trigger] key_text(e[m].0) == p[0] && path_view(
        e[m].1,
        p.skip(1),
        w,
    )
}

/// Whether some chain of entries spells the path `p` and ends at a node
/// with content `w`.
pub open spec fn path_view(d: Doc, p: Seq<Seq<char>>, w: DocView) -> bool
    decreases p.len(), 1nat,
{
    if p.len() == 0 {
        doc_view(d) == w
    } else {
        d matches Doc::Mapping(e) && entries_reach_view(e@, p, w)
    }
}

/// A path that holds a node reaches its content.
pub proof fn lemma_holds_view(d: Doc, p: Seq<Seq<char>>, v: Doc)
    requires
        path_holds(d, p, v),
    ensures
        path_view(d, p, doc_view(v)),
    decreases p.len(),
{
    if p.len() > 0 {
        if let Doc::Mapping(e) = d {
            let m = choose|m: int| 0 <= m < e@.len() && #[trigger] key_text(e@[m].0) == p[0] && path_holds(
                e@[m].1,
                p.skip(1),
                v,
            );
            lemma_holds_view(e@[m].1, p.skip(1), v);
            assert(entries_reach_view(e@, p, doc_view(v)));
        }
    }
}

/// Whether some entry has the key `p[0]` and a value in which the rest of
/// the path reaches a mapping (`b`) or something else (`!b`).
pub open spec fn entries_reach_kind(e: Seq<(Doc, Doc)>, p: Seq<Seq<char>>, b: bool) -> bool
    decreases p.len(), 0nat,
{
    p.len() > 0 && exists|m: int| 0 <= m < e.len() && #[trigger] key_text(e[m].0) == p[0] && path_kind(
        e[m].1,
        p.skip(1),
        b,
    )
}

/// Whether some chain of entries spells the path `p` and ends at a mapping
/// (`b`) or at something else (`!b`).
pub open spec fn path_kind(d: Doc, p: Seq<Seq<char>>, b: bool) -> bool
    decreases p.len(), 1nat,
{
    if p.len() == 0 {
        (d is Mapping) == b
    } else {
        d matches Doc::Mapping(e) && entries_reach_kind(e@, p, b)
    }
}

/// Whether every mapping in a node, at any depth through mappings, lists
/// each key once.
pub open spec fn deep_distinct(d: Doc) -> bool
    decreases d,
{
    match d {
        Doc::Mapping(e) => distinct_keys(e@) && forall|m: int| 0 <= m < e@.len() ==> deep_distinct(
            #[trigger] e@[m].1,
        ),
        _ => true,
    }
}

/// With distinct keys, the entry under a key is the one the last-entry
/// lookup finds.
pub proof fn lemma_keyed_value_distinct(e: Seq<(Doc, Doc)>, m: int)
    requires
        distinct_keys(e),
        0 <= m < e.len(),
    ensures
        keyed_value(e, key_text(e[m].0)) == Some(e[m].1),
    decreases e.len(),
{
    if m < e.len() - 1 {
        let front = e.drop_last();
        assert(key_text(e[e.len() - 1].0) != key_text(e[m].0));
        assert forall|a: int, b: int| 0 <= a < b < front.len() implies key_text(#[trigger] front[a].0) != key_text(
            #[trigger] front[b].0,
        ) by {
            assert(front[a] == e[a] && front[b] == e[b]);
        }
        lemma_keyed_value_distinct(front, m);
        assert(front[m] == e[m]);
    }
}

/// The last-entry lookup finds nothing under a key no entry has.
pub proof fn lemma_keyed_value_absent(e: Seq<(Doc, Doc)>, k: Seq<char>)
    requires
        !entry_keyed(e, k),
    ensures
        keyed_value(e, k) is None,
    decreases e.len(),
{
    if e.len() > 0 {
        let front = e.drop_last();
        assert(key_text(e[e.len() - 1].0) != k);
        assert(!entry_keyed(front, k)) by {
            if entry_keyed(front, k) {
                let m = choose|m: int| 0 <= m < front.len() && #[trigger] key_text(front[m].0) == k;
                assert(front[m] == e[m]);
            }
        }
        lemma_keyed_value_absent(front, k);
    }
}

/// Whether a node is a mapping with an entry under the key text `k`.
pub open spec fn has_key(d: Doc, k: Seq<char>) -> bool {
    d matches Doc::Mapping(e) && entry_keyed(e@, k)
}

/// With distinct keys at every depth, a chain of entries spells a path
/// exactly when the path reads something there, of the same kind.
pub proof fn lemma_kind_value(d: Doc, p: Seq<Seq<char>>, b: bool)
    requires
        deep_distinct(d),
    ensures
        path_kind(d, p, b) <==> (path_value(d, p) matches Some(x) && (x is Mapping) == b),
    decreases p.len(),
{
    if p.len() > 0 {
        if let Doc::Mapping(e) = d {
            if entry_keyed(e@, p[0]) {
                let m = choose|m: int| 0 <= m < e@.len() && #[trigger] key_text(e@[m].0) == p[0];
                lemma_keyed_value_distinct(e@, m);
                assert(deep_distinct(e@[m].1));
                lemma_kind_value(e@[m].1, p.skip(1), b);
                if entries_reach_kind(e@, p, b) {
                    let j = choose|j: int| 0 <= j < e@.len() && #[trigger] key_text(e@[j].0) == p[0] && path_kind(
                        e@[j].1,
                        p.skip(1),
                        b,
                    );
                    if j != m {
                        if j < m {
                            assert(key_text(e@[j].0) != key_text(e@[m].0));
                        } else {
                            assert(key_text(e@[m].0) != key_text(e@[j].0));
                        }
                    }
                }
            } else {
                lemma_keyed_value_absent(e@, p[0]);
                if entries_reach_kind(e@, p, b) {
                    let j = choose|j: int| 0 <= j < e@.len() && #[trigger] key_text(e@[j].0) == p[0] && path_kind(
                        e@[j].1,
                        p.skip(1),
                        b,
                    );
                    assert(entry_keyed(e@, p[0]));
                }
            }
        }
    }
}

/// A deep copy of a node.
pub fn copy_doc(d: &Doc) -> (r: Doc)
    ensures
        is_scalar(*d) ==> r == *d,
        (r is Mapping) == (*d is Mapping),
        doc_view(r) == doc_view(*d),
    decreases d,
{
    match d {
        Doc::Null => Doc::Null,
        Doc::Bool(b) => Doc::Bool(*b),
        Doc::Number(t) => Doc::Number(t.clone()),
        Doc::Text(t) => Doc::Text(t.clone()),
        Doc::List(items) => {
            let mut out: Vec<Doc> = Vec::new();
            let mut i: usize = 0;
            while i < items.len()
                invariant
                    *d == Doc::List(*items),
                    i <= items@.len(),
                    out@.len() == i,
                    forall|k: int| 0 <= k < i ==> doc_view(#[trigger] out@[k]) == doc_view(items@[k]),
                decreases items.len() - i,
            {
                proof {
                    assert(decreases_to!(*d => (*d)->List_0));
                    assert(decreases_to!(*items => items@));
                    assert(decreases_to!(items@ => items@[i as int]));
                    assert(decreases_to!(*d => items@[i as int]));
                }
                out.push(copy_doc(&items[i]));
                i = i + 1;
            }
            proof {
                let r = Doc::List(out);
                assert(doc_view(r)->List_0 =~= doc_view(*d)->List_0);
            }
            Doc::List(out)
        },
        Doc::Mapping(entries) => {
            let mut out: Vec<(Doc, Doc)> = Vec::new();
            let mut i: usize = 0;
            while i < entries.len()
                invariant
                    *d == Doc::Mapping(*entries),
                    i <= entries@.len(),
                    out@.len() == i,
                    forall|k: int| 0 <= k < i ==> doc_view((#[trigger] out@[k]).0) == doc_view(entries@[k].0)
                        && doc_view(out@[k].1) == doc_view(entries@[k].1),
                decreases entries.len() - i,
            {
                proof {
                    assert(decreases_to!(*d => (*d)->Mapping_0));
                    assert(decreases_to!(*entries => entries@));
                    assert(decreases_to!(entries@ => entries@[i as int]));
                    assert(decreases_to!(entries@[i as int] => entries@[i as int].0));
                    assert(decreases_to!(entries@[i as int] => entries@[i as int].1));
                    assert(decreases_to!(*d => entries@[i as int].0));
                    assert(decreases_to!(*d => entries@[i as int].1));
                }
                out.push((copy_doc(&entries[i].0), copy_doc(&entries[i].1)));
                i = i + 1;
            }
            proof {
                let r = Doc::Mapping(out);
                assert(doc_view(r)->Mapping_0 =~= doc_view(*d)->Mapping_0);
            }
            Doc::Mapping(out)
        },
    }
}

fn key_chars_of(k: &Doc) -> (r: Vec<char>)
    ensures
        r@ == key_text(*k),
{
    match k {
        Doc::Text(t) => chars_of(t.as_str()),
        _ => Vec::new(),
    }
}

proof fn lemma_insert_step(before: Seq<(Doc, Doc)>, key: Doc, at: int)
    requires
        0 <= at <= before.len(),
        forall|m: int| 0 <= m < at ==> !text_less(key_text(key), key_text(#[trigger] before[m].0)),
        at < before.len() ==> text_less(key_text(key), key_text(before[at].0)),
    ensures
        insertion_point(entries_view(before), key_text(key)) == at,
{
    let ev = entries_view(before);
    let kt = key_text(key);
    assert forall|m: int| 0 <= m < ev.len() implies view_key(#[trigger] ev[m].0) == key_text(before[m].0) by {
        assert(ev[m].0 == doc_view(before[m].0));
    }
    if exists|a: int| 0 <= a < ev.len() && text_less(kt, view_key((#[trigger] ev[a]).0)) && forall|b: int|
        0 <= b < a ==> !text_less(kt, view_key(ev[b].0)) {
        let a = choose|a: int| 0 <= a < ev.len() && text_less(kt, view_key((#[trigger] ev[a]).0)) && forall|b: int|
            0 <= b < a ==> !text_less(kt, view_key(ev[b].0));
        if a < at {
            assert(!text_less(kt, key_text(before[a].0)));
        } else if a > at {
            assert(!text_less(kt, view_key(ev[at].0)));
        }
    } else {
        if at < ev.len() {
            assert(text_less(kt, view_key(ev[at].0)));
        }
    }
}

proof fn lemma_key_view(k: Doc)
    ensures
        view_key(doc_view(k)) == key_text(k),
{
}

/// Whether the entries built so far are the first `i` entries in order.
#[verifier::opaque]
spec fn canon_prefix(out: Seq<(Doc, Doc)>, whole: Seq<(Doc, Doc)>, i: int) -> bool {
    entries_view(out) == ordered_entries(entries_view(whole), i)
}

#[verifier::rlimit(40)]
proof fn lemma_canon_prefix_step(
    before: Seq<(Doc, Doc)>,
    after: Seq<(Doc, Doc)>,
    whole: Seq<(Doc, Doc)>,
    i: int,
    key: Doc,
    original: Doc,
    value: Doc,
    at: int,
)
    requires
        canon_prefix(before, whole, i),
        0 <= i < whole.len(),
        whole[i] == (key, original),
        doc_view(value) == canon_view(doc_view(original)),
        0 <= at <= before.len(),
        forall|m: int| 0 <= m < at ==> !text_less(key_text(key), key_text(#[trigger] before[m].0)),
        at < before.len() ==> text_less(key_text(key), key_text(before[at].0)),
        after == before.insert(at, (key, value)),
    ensures
        canon_prefix(after, whole, i + 1),
{
    reveal(canon_prefix);
    lemma_key_view(key);
    lemma_insert_step(before, key, at);
    lemma_ordered_step(entries_view(whole), i);
    assert(entries_view(whole)[i] == (doc_view(key), doc_view(original)));
    let ev = entries_view(before);
    let target = ev.insert(at, (doc_view(key), canon_view(doc_view(original))));
    let got = entries_view(after);
    assert(got.len() == target.len());
    assert forall|k: int| 0 <= k < got.len() implies got[k] == target[k] by {
        if k < at {
            assert(after[k] == before[k]);
        } else if k == at {
            assert(after[k] == (key, value));
        } else {
            assert(after[k] == before[k - 1]);
        }
    }
    assert(got =~= target);
}

proof fn lemma_ordered_step(entries: Seq<(DocView, DocView)>, i: int)
    requires
        0 <= i < entries.len(),
    ensures
        ordered_entries(entries, i + 1) == ordered_entries(entries, i).insert(
            insertion_point(ordered_entries(entries, i), view_key(entries[i].0)),
            (entries[i].0, canon_view(entries[i].1)),
        ),
{
}

/// Rebuilds a node with every mapping's entries in ascending key order, at
/// every depth; entries with equal keys keep their order.
#[verifier::rlimit(60)]
#[verifier::spinoff_prover]
pub fn canonicalize(d: Doc) -> (r: Doc)
    ensures
        sorted_doc(r),
        (d is Mapping) == (r is Mapping),
        (d is List) == (r is List),
        forall|k: Seq<char>| has_key(r, k) <==> has_key(d, k),
        is_scalar(d) ==> r == d,
        forall|k: Seq<char>, v: Doc| is_scalar(v) && #[trigger] holds_entry(d, k, v) ==> holds_entry(r, k, v),
        forall|p: Seq<Seq<char>>, v: Doc| is_scalar(v) && #[trigger] path_holds(d, p, v) ==> path_holds(r, p, v),
        deep_distinct(d) ==> deep_distinct(r),
        forall|p: Seq<Seq<char>>| #[trigger] path_to_list(d, p) ==> path_to_list(r, p),
        forall|p: Seq<Seq<char>>| #[trigger] path_to_leaf(d, p) ==> path_to_leaf(r, p),
        doc_view(r) == canon_view(doc_view(d)),
        forall|p: Seq<Seq<char>>, w: DocView| #[trigger] path_view(d, p, w) ==> path_view(r, p, canon_view(w)),
        forall|p: Seq<Seq<char>>, b: bool| #[trigger] path_kind(r, p, b) <==> path_kind(d, p, b),
    decreases d,
{
    match d {
        Doc::List(items) => {
            let ghost whole = items;
            let mut rest = items;
            let mut out: Vec<Doc> = Vec::new();
            let total = rest.len();
            let mut i: usize = 0;
            while i < total
                invariant
                    i <= total,
                    rest@.len() == total - i,
                    rest@ == whole@.skip(i as int),
                    total == whole@.len(),
                    d == Doc::List(whole),
                    forall|k: int| 0 <= k < out@.len() ==> sorted_doc(#[trigger] out@[k]),
                    out@.len() == i,
                    forall|k: int| 0 <= k < out@.len() ==> doc_view(#[trigger] out@[k]) == canon_view(doc_view(whole@[k])),
                decreases total - i,
            {
                proof {
                    assert(rest@[0] == whole@[i as int]);
                    assert(decreases_to!(d => d->List_0));
                    assert(decreases_to!(whole => whole@));
                    assert(decreases_to!(whole@ => whole@[i as int]));
                }
                let item = rest.remove(0);
                proof {
                    assert(rest@ =~= whole@.skip(i + 1));
                }
                let ghost before = out@;
                out.push(canonicalize(item));
                proof {
                    assert forall|k: int| 0 <= k < out@.len() implies doc_view(#[trigger] out@[k]) == canon_view(
                        doc_view(whole@[k]),
                    ) by {
                        if k < before.len() {
                            assert(out@[k] == before[k]);
                        }
                    }
                }
                i = i + 1;
            }
            proof {
                let r = Doc::List(out);
                let dv = doc_view(d);
                assert(doc_view(r)->List_0 =~= canon_view(dv)->List_0) by {
                    assert forall|k: int| 0 <= k < out@.len() implies #[trigger] doc_view(r)->List_0[k] == canon_view(dv)->List_0[k] by {
                        assert(dv->List_0[k] == doc_view(whole@[k]));
                    }
                }
            }
            proof {
                assert forall|p: Seq<Seq<char>>, v: Doc| is_scalar(v) && #[trigger] path_holds(d, p, v) implies path_holds(
                    Doc::List(out),
                    p,
                    v,
                ) by {}
                assert forall|p: Seq<Seq<char>>| #[trigger] path_to_list(d, p) implies path_to_list(Doc::List(out), p) by {}
                assert forall|p: Seq<Seq<char>>| #[trigger] path_to_leaf(d, p) implies path_to_leaf(Doc::List(out), p) by {}
                assert forall|p: Seq<Seq<char>>, w: DocView| #[trigger] path_view(d, p, w) implies path_view(
                    Doc::List(out),
                    p,
                    canon_view(w),
                ) by {}
                assert forall|p: Seq<Seq<char>>, b: bool| #[trigger] path_kind(Doc::List(out), p, b) <==> path_kind(d, p, b) by {}
            }
            Doc::List(out)
        },
        Doc::Mapping(entries) => {
            let ghost whole = entries;
            let mut rest = entries;
            let mut out: Vec<(Doc, Doc)> = Vec::new();
            proof {
                reveal(canon_prefix);
                assert(entries_view(out@) =~= Seq::<(DocView, DocView)>::empty());
            }
            let total = rest.len();
            let mut i: usize = 0;
            while i < total
                invariant
                    i <= total,
                    rest@.len() == total - i,
                    rest@ == whole@.skip(i as int),
                    total == whole@.len(),
                    d == Doc::Mapping(whole),
                    canon_prefix(out@, whole@, i as int),
                    forall|k: int| 0 <= k < out@.len() ==> sorted_doc(#[trigger] out@[k].1),
                    forall|a: int, b: int| 0 <= a < b < out@.len() ==> !text_less(
                        key_text(#[trigger] out@[b].0),
                        key_text(#[trigger] out@[a].0),
                    ),
                    forall|k: Seq<char>| #[trigger] entry_keyed(out@, k) <==> entry_keyed(whole@.take(i as int), k),
                    forall|k: Seq<char>, v: Doc| is_scalar(v) && #[trigger] entry_holds(whole@.take(i as int), k, v)
                        ==> entry_holds(out@, k, v),
                    distinct_keys(whole@) ==> distinct_keys(out@),
                    deep_distinct(d) ==> forall|m: int| 0 <= m < out@.len() ==> deep_distinct(#[trigger] out@[m].1),
                    forall|p: Seq<Seq<char>>| #[trigger] entries_reach_list(whole@.take(i as int), p) ==> entries_reach_list(
                        out@,
                        p,
                    ),
                    forall|p: Seq<Seq<char>>| #[trigger] entries_reach_leaf(whole@.take(i as int), p) ==> entries_reach_leaf(
                        out@,
                        p,
                    ),
                    forall|p: Seq<Seq<char>>, w: DocView| #[trigger] entries_reach_view(whole@.take(i as int), p, w)
                        ==> entries_reach_view(out@, p, canon_view(w)),
                    forall|p: Seq<Seq<char>>, b: bool| #[trigger] entries_reach_kind(whole@.take(i as int), p, b)
                        ==> entries_reach_kind(out@, p, b),
                    forall|p: Seq<Seq<char>>, b: bool| #[trigger] entries_reach_kind(out@, p, b) ==> entries_reach_kind(
                        whole@.take(i as int),
                        p,
                        b,
                    ),
                    forall|p: Seq<Seq<char>>, v: Doc| is_scalar(v) && #[trigger] entries_hold_path(
                        whole@.take(i as int),
                        p,
                        v,
                    ) ==> entries_hold_path(out@, p, v),
                decreases total - i,
            {
                proof {
                    assert(rest@[0] == whole@[i as int]);
                    assert(decreases_to!(d => d->Mapping_0));
                    assert(decreases_to!(whole => whole@));
                    assert(decreases_to!(whole@ => whole@[i as int]));
                    assert(decreases_to!(whole@[i as int] => whole@[i as int].1));
                }
                let (key, value) = rest.remove(0);
                proof {
                    assert(rest@ =~= whole@.skip(i + 1));
                }
                let ghost original = value;
                let value = canonicalize(value);
                let key_chars = key_chars_of(&key);
                let mut k: usize = 0;
                while k < out.len() && compare_text(&key_chars, &key_chars_of(&out[k].0)) >= 0
                    invariant
                        k <= out@.len(),
                        key_chars@ == key_text(key),
                        forall|m: int| 0 <= m < k ==> !text_less(key_text(key), key_text(#[trigger] out@[m].0)),
                    decreases out.len() - k,
                {
                    k = k + 1;
                }
                let at = k;
                proof {
                    if at < out@.len() {
                        assert(text_less(key_text(key), key_text(out@[at as int].0)));
                    }
                    assert forall|a: int, b: int| 0 <= a < b < out@.len() && at <= a implies !text_less(
                        key_text(out@[b].0),
                        key_text(out@[a].0),
                    ) by {}
                    assert forall|m: int| 0 <= m < at implies !text_less(key_text(key), key_text(#[trigger] out@[m].0)) by {
                        if at < out@.len() {
                        }
                    }
                    assert forall|m: int| at <= m < out@.len() implies !text_less(key_text(#[trigger] out@[m].0), key_text(key)) by {
                        lemma_text_order_total(key_text(key), key_text(out@[at as int].0));
                        if m > at {
                            lemma_text_order_total(key_text(out@[at as int].0), key_text(out@[m].0));
                            if text_less(key_text(out@[m].0), key_text(key)) {
                                if text_less(key_text(out@[m].0), key_text(out@[at as int].0)) {
                                } else {
                                    lemma_text_order_transitive(key_text(key), key_text(out@[at as int].0), key_text(out@[m].0));
                                    lemma_text_order_total(key_text(key), key_text(out@[m].0));
                                }
                            }
                        } else {
                            lemma_text_order_total(key_text(out@[m].0), key_text(key));
                        }
                    }
                }
                let ghost before = out@;
                out.insert(at, (key, value));
                proof {
                    lemma_canon_prefix_step(before, out@, whole@, i as int, key, original, value, at as int);
                }
                proof {
                    assert forall|a: int, b: int| 0 <= a < b < out@.len() implies !text_less(
                        key_text(#[trigger] out@[b].0),
                        key_text(#[trigger] out@[a].0),
                    ) by {
                        if a < at && b == at {
                        } else if a == at && b > at {
                            assert(out@[b] == before[b - 1]);
                        } else if a < at && b > at {
                            assert(out@[b] == before[b - 1]);
                            assert(out@[a] == before[a]);
                        } else if b < at {
                            assert(out@[b] == before[b]);
                            assert(out@[a] == before[a]);
                        } else {
                            assert(out@[b] == before[b - 1]);
                            assert(out@[a] == before[a - 1]);
                        }
                    }
                    assert forall|k: int| 0 <= k < out@.len() implies sorted_doc(#[trigger] out@[k].1) by {
                        if k < at {
                            assert(out@[k] == before[k]);
                        } else if k > at {
                            assert(out@[k] == before[k - 1]);
                        }
                    }
                    let prefix = whole@.take(i + 1);
                    assert(prefix.drop_last() =~= whole@.take(i as int));
                    assert(prefix.last() == whole@[i as int]);
                    assert forall|t: Seq<char>, v: Doc| is_scalar(v) && #[trigger] entry_holds(prefix, t, v)
                        implies entry_holds(out@, t, v) by {
                        let j = choose|j: int| 0 <= j < prefix.len() && #[trigger] key_text(prefix[j].0) == t
                            && prefix[j].1 == v;
                        if j == i {
                            assert(key_text(out@[at as int].0) == t && out@[at as int].1 == v);
                        } else {
                            assert(whole@.take(i as int)[j] == prefix[j]);
                            assert(entry_holds(whole@.take(i as int), t, v));
                            let q = choose|q: int| 0 <= q < before.len() && #[trigger] key_text(before[q].0) == t
                                && before[q].1 == v;
                            if q < at {
                                assert(out@[q] == before[q]);
                            } else {
                                assert(out@[q + 1] == before[q]);
                            }
                        }
                    }
                    assert(whole@[i as int] == (key, original));
                    assert forall|p: Seq<Seq<char>>| #[trigger] entries_reach_list(prefix, p) implies entries_reach_list(
                        out@,
                        p,
                    ) by {
                        let j = choose|j: int| 0 <= j < prefix.len() && #[trigger] key_text(prefix[j].0) == p[0]
                            && path_to_list(prefix[j].1, p.skip(1));
                        if j == i {
                            assert(path_to_list(original, p.skip(1)));
                            assert(path_to_list(value, p.skip(1)));
                            assert(key_text(out@[at as int].0) == p[0]);
                        } else {
                            assert(whole@.take(i as int)[j] == prefix[j]);
                            assert(entries_reach_list(whole@.take(i as int), p));
                            assert(entries_reach_list(before, p));
                            let q = choose|q: int| 0 <= q < before.len() && #[trigger] key_text(before[q].0) == p[0]
                                && path_to_list(before[q].1, p.skip(1));
                            if q < at {
                                assert(out@[q] == before[q]);
                            } else {
                                assert(out@[q + 1] == before[q]);
                            }
                        }
                    }
                    assert forall|p: Seq<Seq<char>>| #[trigger] entries_reach_leaf(prefix, p) implies entries_reach_leaf(
                        out@,
                        p,
                    ) by {
                        let j = choose|j: int| 0 <= j < prefix.len() && #[trigger] key_text(prefix[j].0) == p[0]
                            && path_to_leaf(prefix[j].1, p.skip(1));
                        if j == i {
                            assert(path_to_leaf(original, p.skip(1)));
                            assert(path_to_leaf(value, p.skip(1)));
                            assert(key_text(out@[at as int].0) == p[0]);
                        } else {
                            assert(whole@.take(i as int)[j] == prefix[j]);
                            assert(entries_reach_leaf(whole@.take(i as int), p));
                            assert(entries_reach_leaf(before, p));
                            let q = choose|q: int| 0 <= q < before.len() && #[trigger] key_text(before[q].0) == p[0]
                                && path_to_leaf(before[q].1, p.skip(1));
                            if q < at {
                                assert(out@[q] == before[q]);
                            } else {
                                assert(out@[q + 1] == before[q]);
                            }
                        }
                    }
                    assert forall|p: Seq<Seq<char>>, w: DocView| #[trigger] entries_reach_view(prefix, p, w) implies entries_reach_view(
                        out@,
                        p,
                        canon_view(w),
                    ) by {
                        let j = choose|j: int| 0 <= j < prefix.len() && #[trigger] key_text(prefix[j].0) == p[0]
                            && path_view(prefix[j].1, p.skip(1), w);
                        if j == i {
                            assert(path_view(original, p.skip(1), w));
                            assert(path_view(value, p.skip(1), canon_view(w)));
                            assert(key_text(out@[at as int].0) == p[0]);
                        } else {
                            assert(whole@.take(i as int)[j] == prefix[j]);
                            assert(entries_reach_view(whole@.take(i as int), p, w));
                            assert(entries_reach_view(before, p, canon_view(w)));
                            let q = choose|q: int| 0 <= q < before.len() && #[trigger] key_text(before[q].0) == p[0]
                                && path_view(before[q].1, p.skip(1), canon_view(w));
                            if q < at {
                                assert(out@[q] == before[q]);
                            } else {
                                assert(out@[q + 1] == before[q]);
                            }
                        }
                    }
                    assert forall|p: Seq<Seq<char>>, b: bool| #[trigger] entries_reach_kind(prefix, p, b) implies entries_reach_kind(
                        out@,
                        p,
                        b,
                    ) by {
                        let j = choose|j: int| 0 <= j < prefix.len() && #[trigger] key_text(prefix[j].0) == p[0]
                            && path_kind(prefix[j].1, p.skip(1), b);
                        if j == i {
                            assert(path_kind(original, p.skip(1), b));
                            assert(path_kind(value, p.skip(1), b));
                            assert(key_text(out@[at as int].0) == p[0]);
                        } else {
                            assert(whole@.take(i as int)[j] == prefix[j]);
                            assert(entries_reach_kind(whole@.take(i as int), p, b));
                            assert(entries_reach_kind(before, p, b));
                            let q = choose|q: int| 0 <= q < before.len() && #[trigger] key_text(before[q].0) == p[0]
                                && path_kind(before[q].1, p.skip(1), b);
                            if q < at {
                                assert(out@[q] == before[q]);
                            } else {
                                assert(out@[q + 1] == before[q]);
                            }
                        }
                    }
                    assert forall|p: Seq<Seq<char>>, b: bool| #[trigger] entries_reach_kind(out@, p, b) implies entries_reach_kind(
                        prefix,
                        p,
                        b,
                    ) by {
                        let m = choose|m: int| 0 <= m < out@.len() && #[trigger] key_text(out@[m].0) == p[0]
                            && path_kind(out@[m].1, p.skip(1), b);
                        if m == at {
                            assert(out@[m] == (key, value));
                            assert(path_kind(original, p.skip(1), b));
                            assert(key_text(prefix[i as int].0) == p[0]);
                        } else {
                            let q = if m < at { m } else { m - 1 };
                            assert(out@[m] == before[q]);
                            assert(entries_reach_kind(before, p, b));
                            assert(entries_reach_kind(whole@.take(i as int), p, b));
                            let j = choose|j: int| 0 <= j < i && #[trigger] key_text(whole@.take(i as int)[j].0) == p[0]
                                && path_kind(whole@.take(i as int)[j].1, p.skip(1), b);
                            assert(prefix[j] == whole@.take(i as int)[j]);
                        }
                    }
                    if deep_distinct(d) {
                        assert(deep_distinct(original));
                        assert forall|m: int| 0 <= m < out@.len() implies deep_distinct(#[trigger] out@[m].1) by {
                            if m < at {
                                assert(out@[m] == before[m]);
                            } else if m > at {
                                assert(out@[m] == before[m - 1]);
                            }
                        }
                    }
                    assert forall|p: Seq<Seq<char>>, v: Doc| is_scalar(v) && #[trigger] entries_hold_path(prefix, p, v)
                        implies entries_hold_path(out@, p, v) by {
                        let j = choose|j: int| 0 <= j < prefix.len() && #[trigger] key_text(prefix[j].0) == p[0]
                            && path_holds(prefix[j].1, p.skip(1), v);
                        if j == i {
                            assert(path_holds(original, p.skip(1), v));
                            assert(path_holds(value, p.skip(1), v));
                            assert(key_text(out@[at as int].0) == p[0]);
                        } else {
                            assert(whole@.take(i as int)[j] == prefix[j]);
                            assert(entries_hold_path(whole@.take(i as int), p, v));
                            assert(entries_hold_path(before, p, v));
                            let q = choose|q: int| 0 <= q < before.len() && #[trigger] key_text(before[q].0) == p[0]
                                && path_holds(before[q].1, p.skip(1), v);
                            if q < at {
                                assert(out@[q] == before[q]);
                            } else {
                                assert(out@[q + 1] == before[q]);
                            }
                        }
                    }
                    if distinct_keys(whole@) {
                        assert(!entry_keyed(whole@.take(i as int), key_text(key))) by {
                            if entry_keyed(whole@.take(i as int), key_text(key)) {
                                let j = choose|j: int| 0 <= j < i && #[trigger] key_text(whole@.take(i as int)[j].0)
                                    == key_text(key);
                                assert(key_text(whole@[j].0) == key_text(whole@[i as int].0));
                            }
                        }
                        assert(!entry_keyed(before, key_text(key)));
                        assert forall|a: int, b: int| 0 <= a < b < out@.len() implies key_text(
                            #[trigger] out@[a].0,
                        ) != key_text(#[trigger] out@[b].0) by {
                            if a == at {
                                assert(out@[b] == before[b - 1]);
                            } else if b == at {
                                assert(out@[a] == before[a]);
                            } else {
                                let qa = if a < at { a } else { a - 1 };
                                let qb = if b < at { b } else { b - 1 };
                                assert(out@[a] == before[qa]);
                                assert(out@[b] == before[qb]);
                            }
                        }
                    }
                    assert forall|t: Seq<char>| #[trigger] entry_keyed(out@, t) <==> entry_keyed(prefix, t) by {
                        if entry_keyed(out@, t) {
                            let m = choose|m: int| 0 <= m < out@.len() && #[trigger] key_text(out@[m].0) == t;
                            if m == at {
                                assert(key_text(prefix[i as int].0) == t);
                            } else {
                                let q = if m < at { m } else { m - 1 };
                                assert(out@[m] == before[q]);
                                assert(entry_keyed(before, t));
                                assert(entry_keyed(whole@.take(i as int), t));
                                let j = choose|j: int| 0 <= j < i && #[trigger] key_text(whole@.take(i as int)[j].0) == t;
                                assert(prefix[j] == whole@.take(i as int)[j]);
                            }
                        }
                        if entry_keyed(prefix, t) {
                            let j = choose|j: int| 0 <= j < i + 1 && #[trigger] key_text(prefix[j].0) == t;
                            if j == i {
                                assert(key_text(out@[at as int].0) == t);
                            } else {
                                assert(whole@.take(i as int)[j] == prefix[j]);
                                assert(entry_keyed(whole@.take(i as int), t));
                                assert(entry_keyed(before, t));
                                let q = choose|q: int| 0 <= q < before.len() && #[trigger] key_text(before[q].0) == t;
                                if q < at {
                                    assert(out@[q] == before[q]);
                                } else {
                                    assert(out@[q + 1] == before[q]);
                                }
                            }
                        }
                    }
                }
                i = i + 1;
            }
            proof {
                assert(whole@.take(total as int) =~= whole@);
                lemma_mapping_view(whole);
                lemma_mapping_view(out);
                reveal(canon_prefix);
                assert forall|p: Seq<Seq<char>>, v: Doc| is_scalar(v) && #[trigger] path_holds(d, p, v) implies path_holds(
                    Doc::Mapping(out),
                    p,
                    v,
                ) by {
                    if p.len() > 0 {
                        assert(entries_hold_path(whole@, p, v));
                        assert(entries_hold_path(out@, p, v));
                    }
                }
                assert forall|p: Seq<Seq<char>>| #[trigger] path_to_list(d, p) implies path_to_list(Doc::Mapping(out), p) by {
                    if p.len() > 0 {
                        assert(entries_reach_list(whole@, p));
                        assert(entries_reach_list(out@, p));
                    }
                }
                assert forall|p: Seq<Seq<char>>| #[trigger] path_to_leaf(d, p) implies path_to_leaf(Doc::Mapping(out), p) by {
                    if p.len() > 0 {
                        assert(entries_reach_leaf(whole@, p));
                        assert(entries_reach_leaf(out@, p));
                    }
                }
                assert forall|p: Seq<Seq<char>>, w: DocView| #[trigger] path_view(d, p, w) implies path_view(
                    Doc::Mapping(out),
                    p,
                    canon_view(w),
                ) by {
                    if p.len() > 0 {
                        assert(entries_reach_view(whole@, p, w));
                        assert(entries_reach_view(out@, p, canon_view(w)));
                    }
                }
                assert forall|p: Seq<Seq<char>>, b: bool| #[trigger] path_kind(Doc::Mapping(out), p, b) <==> path_kind(d, p, b) by {
                    if p.len() > 0 {
                        if path_kind(d, p, b) {
                            assert(entries_reach_kind(whole@, p, b));
                        }
                        if path_kind(Doc::Mapping(out), p, b) {
                            assert(entries_reach_kind(out@, p, b));
                        }
                    }
                }
            }
            Doc::Mapping(out)
        },
        other => other,
    }
}
} // verus!
