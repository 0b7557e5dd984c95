//! The child settings keys this wrapper recognizes at the document root.
//!
//! Shallow on purpose: top level only, no nesting and no types. It answers
//! "have I seen this name before" so an unrecognized key can be reported.

use vstd::prelude::*;

use crate::doc::{compare_text, lemma_text_order_total, lemma_text_order_transitive, text_less, Doc};
use crate::text::{chars_of, copy_chars, string_of};

verus! {

/// The recognized top-level keys, sorted and unique.
pub open spec fn known_spec() -> Seq<Seq<char>> {
    seq![
        "apiKeyHelper"@,
        "awsAuthRefresh"@,
        "awsCredentialExport"@,
        "cleanupPeriodDays"@,
        "env"@,
        "forceLoginMethod"@,
        "hooks"@,
        "includeCoAuthoredBy"@,
        "model"@,
        "outputStyle"@,
        "permissions"@,
        "sandbox"@,
        "statusLine"@,
        "statusLineCommand"@,
    ]
}

/// The views of a list of string slices.
pub open spec fn texts_of(v: Seq<&'static str>) -> Seq<Seq<char>> {
    v.map_values(|s: &'static str| s@)
}

/// The recognized top-level keys, sorted and unique.
pub fn known_top_level() -> (r: Vec<&'static str>)
    ensures
        texts_of(r@) == known_spec(),
{
    let r = vec![
        "apiKeyHelper",
        "awsAuthRefresh",
        "awsCredentialExport",
        "cleanupPeriodDays",
        "env",
        "forceLoginMethod",
        "hooks",
        "includeCoAuthoredBy",
        "model",
        "outputStyle",
        "permissions",
        "sandbox",
        "statusLine",
        "statusLineCommand",
    ];
    proof {
        assert(texts_of(r@) =~= known_spec());
    }
    r
}

/// Whether a list of texts is strictly ascending.
pub open spec fn strictly_sorted(s: Seq<Seq<char>>) -> bool {
    forall|i: int, j: int| 0 <= i < j < s.len() ==> text_less(s[i], s[j])
}

/// The table is strictly ascending, so a binary search over it is correct and
/// no name hides behind a duplicate of itself.
pub proof fn law_known_keys_are_sorted_and_unique()
    ensures
        strictly_sorted(known_spec()),
{
    reveal_strlit("apiKeyHelper");
    reveal_strlit("awsAuthRefresh");
    reveal_strlit("awsCredentialExport");
    reveal_strlit("cleanupPeriodDays");
    reveal_strlit("env");
    reveal_strlit("forceLoginMethod");
    reveal_strlit("hooks");
    reveal_strlit("includeCoAuthoredBy");
    reveal_strlit("model");
    reveal_strlit("outputStyle");
    reveal_strlit("permissions");
    reveal_strlit("sandbox");
    reveal_strlit("statusLine");
    reveal_strlit("statusLineCommand");
    let s = known_spec();
    reveal_with_fuel(text_less, 12);
    assert forall|i: int| 0 <= i < s.len() - 1 implies text_less(#[trigger] s[i], s[i + 1]) by {
        if i == 0 {
            assert(text_less(s[0], s[1]));
        } else if i == 1 {
            assert(text_less(s[1], s[2]));
        } else if i == 2 {
            assert(text_less(s[2], s[3]));
        } else if i == 3 {
            assert(text_less(s[3], s[4]));
        } else if i == 4 {
            assert(text_less(s[4], s[5]));
        } else if i == 5 {
            assert(text_less(s[5], s[6]));
        } else if i == 6 {
            assert(text_less(s[6], s[7]));
        } else if i == 7 {
            assert(text_less(s[7], s[8]));
        } else if i == 8 {
            assert(text_less(s[8], s[9]));
        } else if i == 9 {
            assert(text_less(s[9], s[10]));
        } else if i == 10 {
            assert(text_less(s[10], s[11]));
        } else if i == 11 {
            assert(text_less(s[11], s[12]));
        } else {
            assert(text_less(s[12], s[13]));
        }
    }
    lemma_adjacent_sorted(s);
}

proof fn lemma_adjacent_sorted(s: Seq<Seq<char>>)
    requires
        forall|i: int| 0 <= i < s.len() - 1 ==> text_less(#[trigger] s[i], s[i + 1]),
    ensures
        strictly_sorted(s),
{
    assert forall|i: int, j: int| 0 <= i < j < s.len() implies text_less(s[i], s[j]) by {
        lemma_chain(s, i, j);
    }
}

proof fn lemma_chain(s: Seq<Seq<char>>, i: int, j: int)
    requires
        forall|k: int| 0 <= k < s.len() - 1 ==> text_less(#[trigger] s[k], s[k + 1]),
        0 <= i < j < s.len(),
    ensures
        text_less(s[i], s[j]),
    decreases j - i,
{
    if j > i + 1 {
        lemma_chain(s, i, j - 1);
        lemma_text_order_transitive(s[i], s[j - 1], s[j]);
    }
}

/// Whether a key is recognized, by binary search over the sorted table.
fn is_known(table: &Vec<&'static str>, key: &Vec<char>) -> (r: bool)
    requires
        strictly_sorted(texts_of(table@)),
    ensures
        r == texts_of(table@).contains(key@),
{
    let mut lo: usize = 0;
    let mut hi: usize = table.len();
    while lo < hi
        invariant
            hi <= table@.len(),
            lo <= hi,
            strictly_sorted(texts_of(table@)),
            forall|k: int| 0 <= k < lo ==> text_less(texts_of(table@)[k], key@),
            forall|k: int| hi <= k < table@.len() ==> text_less(key@, texts_of(table@)[k]),
        decreases hi - lo,
    {
        let mid = lo + (hi - lo) / 2;
        let probe = chars_of(table[mid]);
        proof {
            assert(texts_of(table@)[mid as int] == probe@);
        }
        let c = compare_text(&probe, key);
        if c == 0 {
            proof {
                assert(texts_of(table@)[mid as int] == key@);
            }
            return true;
        } else if c < 0 {
            proof {
                assert forall|k: int| 0 <= k <= mid implies text_less(texts_of(table@)[k], key@) by {
                    if k < mid {
                        lemma_text_order_transitive(texts_of(table@)[k], texts_of(table@)[mid as int], key@);
                    }
                }
            }
            lo = mid + 1;
        } else {
            proof {
                assert forall|k: int| mid <= k < table@.len() implies text_less(key@, texts_of(table@)[k]) by {
                    if k > mid {
                        lemma_text_order_transitive(key@, texts_of(table@)[mid as int], texts_of(table@)[k]);
                    }
                }
            }
            hi = mid;
        }
    }
    proof {
        assert forall|k: int| 0 <= k < texts_of(table@).len() implies texts_of(table@)[k] != key@ by {
            lemma_text_order_total(texts_of(table@)[k], key@);
        }
    }
    false
}

/// The texts of a document's top-level keys that the table does not hold, in
/// document order; a document that is not a mapping reports nothing.
pub open spec fn unknown_spec(d: Doc) -> Seq<Seq<char>> {
    match d {
        Doc::Mapping(entries) => unknown_keys(entries@),
        _ => Seq::empty(),
    }
}

/// The unrecognized text keys of some entries, in order.
pub open spec fn unknown_keys(entries: Seq<(Doc, Doc)>) -> Seq<Seq<char>>
    decreases entries.len(),
{
    if entries.len() == 0 {
        Seq::empty()
    } else {
        let rest = unknown_keys(entries.drop_last());
        match entries.last().0 {
            Doc::Text(k) => if known_spec().contains(k@) {
                rest
            } else {
                rest.push(k@)
            },
            _ => rest,
        }
    }
}

/// The views of a vector of strings.
pub open spec fn string_views(v: Seq<String>) -> Seq<Seq<char>> {
    v.map_values(|s: String| s@)
}

/// Returns the document's top-level keys that are not in the table; a nested
/// key is never reported.
pub fn unknown_top_level(document: &Doc) -> (r: Vec<String>)
    ensures
        string_views(r@) == unknown_spec(*document),
{
    let mut out: Vec<String> = Vec::new();
    match document {
        Doc::Mapping(entries) => {
            let table = known_top_level();
            proof {
                law_known_keys_are_sorted_and_unique();
                assert(string_views(out@) =~= unknown_keys(entries@.take(0)));
            }
            let mut i: usize = 0;
            while i < entries.len()
                invariant
                    i <= entries@.len(),
                    texts_of(table@) == known_spec(),
                    strictly_sorted(texts_of(table@)),
                    string_views(out@) == unknown_keys(entries@.take(i as int)),
                decreases entries.len() - i,
            {
                proof {
                    assert(entries@.take(i + 1).drop_last() =~= entries@.take(i as int));
                    assert(entries@.take(i + 1).last() == entries@[i as int]);
                }
                match &entries[i].0 {
                    Doc::Text(key) => {
                        let chars = chars_of(key.as_str());
                        if !is_known(&table, &chars) {
                            let ghost before = string_views(out@);
                            out.push(string_of(&copy_chars(&chars)));
                            proof {
                                assert(string_views(out@) =~= before.push(key@));
                            }
                        }
                    },
                    _ => {},
                }
                i = i + 1;
            }
            proof {
                assert(entries@.take(entries@.len() as int) =~= entries@);
            }
        },
        _ => {
            proof {
                assert(string_views(out@) =~= Seq::<Seq<char>>::empty());
            }
        },
    }
    out
}

} // verus!
