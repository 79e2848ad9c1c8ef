//! Strings: lexicographic order of characters, and how lists of them print.
use vstd::prelude::*;

verus! {

broadcast use vstd::seq_lib::group_seq_properties;

/// The characters of each string.
pub open spec fn texts(v: Seq<String>) -> Seq<Seq<char>> {
    v.map_values(|s: String| s@)
}

/// `a` comes before `b` in lexicographic order of characters.
pub open spec fn text_less(a: Seq<char>, b: Seq<char>) -> bool
    decreases a.len(),
{
    if a.len() == 0 {
        b.len() > 0
    } else if b.len() == 0 {
        false
    } else if a[0] != b[0] {
        (a[0] as int) < (b[0] as int)
    } else {
        text_less(a.drop_first(), b.drop_first())
    }
}

/// Each text comes strictly before the next.
pub open spec fn strictly_sorted(s: Seq<Seq<char>>) -> bool {
    forall|i: int, j: int| 0 <= i < j < s.len() ==> text_less(s[i], s[j])
}

pub proof fn lemma_text_less_total(a: Seq<char>, b: Seq<char>)
    requires
        a != b,
    ensures
        text_less(a, b) || text_less(b, a),
    decreases a.len(),
{
    if a.len() == 0 && b.len() == 0 {
        assert(a =~= b);
    } else if a.len() > 0 && b.len() > 0 && a[0] != b[0] {
        assert((a[0] as int) != (b[0] as int));
    } else if a.len() > 0 && b.len() > 0 && a[0] == b[0] {
        if a.drop_first() == b.drop_first() {
            assert(a =~= seq![a[0]] + a.drop_first());
            assert(b =~= seq![b[0]] + b.drop_first());
        }
        lemma_text_less_total(a.drop_first(), b.drop_first());
    }
}

pub proof fn lemma_text_less_transitive(a: Seq<char>, b: Seq<char>, c: Seq<char>)
    requires
        text_less(a, b),
        text_less(b, c),
    ensures
        text_less(a, c),
    decreases a.len(),
{
    if a.len() > 0 && b.len() > 0 && c.len() > 0 && a[0] == b[0] && b[0] == c[0] {
        lemma_text_less_transitive(a.drop_first(), b.drop_first(), c.drop_first());
    }
}

/// Inserting a text at its place keeps a sorted sequence sorted.
pub proof fn lemma_insert_sorted(before: Seq<Seq<char>>, t: Seq<char>, k: int)
    requires
        0 <= k <= before.len(),
        strictly_sorted(before),
        forall|j: int| 0 <= j < k ==> text_less(#[trigger] before[j], t),
        k < before.len() ==> text_less(t, before[k]),
    ensures
        strictly_sorted(before.insert(k, t)),
        forall|x: Seq<char>| before.insert(k, t).contains(x) <==> (before.contains(x) || x == t),
{
    let after = before.insert(k, t);
    assert forall|a: int, b: int| 0 <= a < b < after.len() implies text_less(after[a], after[b]) by {
        if b < k {
            assert(after[a] == before[a] && after[b] == before[b]);
        } else if b == k {
            assert(after[a] == before[a]);
        } else if a < k {
            assert(after[a] == before[a] && after[b] == before[b - 1]);
            lemma_text_less_transitive(before[a], t, before[k]);
            if b - 1 > k {
                lemma_text_less_transitive(before[a], before[k], before[b - 1]);
            }
        } else if a == k {
            assert(after[b] == before[b - 1]);
            if b - 1 > k {
                lemma_text_less_transitive(t, before[k], before[b - 1]);
            }
        } else {
            assert(after[a] == before[a - 1] && after[b] == before[b - 1]);
        }
    }
    assert forall|x: Seq<char>| after.contains(x) <==> (before.contains(x) || x == t) by {
        if after.contains(x) && x != t {
            let m = choose|m: int| 0 <= m < after.len() && after[m] == x;
            if m < k {
                assert(before[m] == x);
            } else {
                assert(before[m - 1] == x);
            }
        }
        if before.contains(x) {
            let m = choose|m: int| 0 <= m < before.len() && before[m] == x;
            if m < k {
                assert(after[m] == x);
            } else {
                assert(after[m + 1] == x);
            }
        }
        if x == t {
            assert(after[k] == x);
        }
    }
}

/// Whether `a` comes before `b` in lexicographic order of characters.
pub fn text_lt(a: &str, b: &str) -> (r: bool)
    ensures
        r == text_less(a@, b@),
{
    let la = a.unicode_len();
    let lb = b.unicode_len();
    let mut i: usize = 0;
    while i < la && i < lb
        invariant
            la == a@.len(),
            lb == b@.len(),
            i <= la,
            i <= lb,
            text_less(a@, b@) == text_less(a@.skip(i as int), b@.skip(i as int)),
        decreases la - i,
    {
        let ca = a.get_char(i);
        let cb = b.get_char(i);
        assert(a@.skip(i as int)[0] == ca && b@.skip(i as int)[0] == cb);
        if ca != cb {
            return (ca as u32) < (cb as u32);
        }
        assert(a@.skip(i as int).drop_first() =~= a@.skip(i + 1));
        assert(b@.skip(i as int).drop_first() =~= b@.skip(i + 1));
        i = i + 1;
    }
    i == la && i < lb
}

/// The text that std's `Debug` gives a list of strings.
pub uninterp spec fn debug_list_of(items: Seq<Seq<char>>) -> Seq<char>;

/// Relies on std's `Debug` for a `Vec<String>`, through `format!("{:?}", ..)`:
/// the result depends on the strings alone.
#[verifier::external_body]
pub(crate) fn debug_list(items: &Vec<String>) -> (r: String)
    ensures
        r@ == debug_list_of(texts(items@)),
{
    format!("{:?}", items)
}

} // verus!
