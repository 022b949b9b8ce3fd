//! The displayed price text: whole dollars with thousands separators, e.g. `$67,432`.
use vstd::prelude::*;
use vstd::utf8::{encode_utf8, is_ascii_chars, is_ascii_chars_encode_utf8};

use crate::text::{collect_chars, push_char};

verus! {

/// `digits` with a `,` before each character at position `i > 0` for which
/// `len - i` is a multiple of three, where `len` is the text's length in bytes.
pub open spec fn grouped_thousands(digits: Seq<char>, len: int) -> Seq<char>
    decreases digits.len(),
{
    if digits.len() == 0 {
        Seq::empty()
    } else {
        let i = digits.len() - 1;
        grouped_thousands(digits.drop_last(), len) + (if i > 0 && (len - i) % 3 == 0 {
            seq![',', digits.last()]
        } else {
            seq![digits.last()]
        })
    }
}

/// `$`, a minus sign for a negative amount, then the grouped digits.
pub open spec fn whole_dollars_text(negative: bool, digits: Seq<char>) -> Seq<char> {
    seq!['$'] + (if negative { seq!['-'] } else { Seq::empty() }) + grouped_thousands(
        digits,
        encode_utf8(digits).len() as int,
    )
}

/// `s` with its commas deleted.
pub open spec fn without_commas(s: Seq<char>) -> Seq<char>
    decreases s.len(),
{
    if s.len() == 0 {
        Seq::empty()
    } else {
        without_commas(s.drop_last()) + (if s.last() == ',' { Seq::empty() } else { seq![s.last()] })
    }
}

proof fn lemma_without_commas_add(a: Seq<char>, b: Seq<char>)
    ensures
        without_commas(a + b) == without_commas(a) + without_commas(b),
    decreases b.len(),
{
    if b.len() == 0 {
        assert(a + b =~= a);
        assert(without_commas(a) + without_commas(b) =~= without_commas(a));
    } else {
        lemma_without_commas_add(a, b.drop_last());
        assert((a + b).drop_last() =~= a + b.drop_last());
        assert((a + b).last() == b.last());
        assert(without_commas(a + b) =~= without_commas(a) + without_commas(b));
    }
}

/// The separators are the only characters that grouping adds: deleting the
/// commas from the grouped text gives back the digits with their commas deleted.
pub proof fn lemma_grouping_only_adds_separators(digits: Seq<char>, len: int)
    ensures
        without_commas(grouped_thousands(digits, len)) == without_commas(digits),
    decreases digits.len(),
{
    if digits.len() > 0 {
        let i = digits.len() - 1;
        let rest = digits.drop_last();
        let tail = if i > 0 && (len - i) % 3 == 0 {
            seq![',', digits.last()]
        } else {
            seq![digits.last()]
        };
        lemma_grouping_only_adds_separators(rest, len);
        lemma_without_commas_add(grouped_thousands(rest, len), tail);
        assert(rest + seq![digits.last()] =~= digits);
        lemma_without_commas_add(rest, seq![digits.last()]);
        assert(seq![digits.last()].drop_last() =~= Seq::<char>::empty());
        if tail.len() == 2 {
            assert(tail.drop_last() =~= seq![',']);
            assert(seq![','].drop_last() =~= Seq::<char>::empty());
            reveal_with_fuel(without_commas, 2);
            assert(without_commas(seq![',']) =~= Seq::<char>::empty());
            assert(without_commas(tail) =~= without_commas(seq![digits.last()]));
        }
        assert(without_commas(grouped_thousands(digits, len)) =~= without_commas(digits));
    }
}

proof fn lemma_grouped_prefix_len(digits: Seq<char>, k: int)
    requires
        1 <= k <= digits.len(),
    ensures
        grouped_thousands(digits.take(k), digits.len() as int).len() == k + (digits.len() - 1) / 3
            - (digits.len() - k) / 3,
    decreases k,
{
    let n = digits.len() as int;
    if k > 1 {
        lemma_grouped_prefix_len(digits, k - 1);
        let p = digits.take(k);
        assert(p.drop_last() =~= digits.take(k - 1));
        let t = grouped_thousands(p, n);
        assert(t.len() == grouped_thousands(digits.take(k - 1), n).len() + (if (n - (k - 1)) % 3 == 0 { 2int } else { 1 }));
        assert((n - k + 1) / 3 - (n - k) / 3 == (if (n - k + 1) % 3 == 0 { 1int } else { 0 }));
    } else {
        assert(digits.take(1).drop_last() =~= Seq::<char>::empty());
        assert(grouped_thousands(Seq::<char>::empty(), n).len() == 0);
        assert(grouped_thousands(digits.take(1), n).len() == 1);
    }
}

/// For `n >= 1` ASCII digits, grouping adds `(n - 1) / 3` separators.
pub proof fn lemma_grouped_len(digits: Seq<char>)
    requires
        digits.len() >= 1,
    ensures
        grouped_thousands(digits, digits.len() as int).len() == digits.len() + (digits.len() - 1) / 3,
{
    lemma_grouped_prefix_len(digits, digits.len() as int);
    assert(digits.take(digits.len() as int) =~= digits);
}

/// A text without commas is left as it is by deleting commas.
proof fn lemma_without_commas_none(s: Seq<char>)
    requires
        forall|i: int| 0 <= i < s.len() ==> #[trigger] s[i] != ',',
    ensures
        without_commas(s) == s,
    decreases s.len(),
{
    if s.len() > 0 {
        let t = s.drop_last();
        assert forall|i: int| 0 <= i < t.len() implies #[trigger] t[i] != ',' by {
            assert(t[i] == s[i]);
        }
        lemma_without_commas_none(t);
        assert(s[s.len() - 1] != ',');
        assert(t + seq![s.last()] =~= s);
    }
}

/// Where the separators of the grouping of the first `k` of `digits` stand,
/// measured from the end of the grouping of all of them.
proof fn lemma_separator_prefix(digits: Seq<char>, k: int)
    requires
        1 <= k <= digits.len(),
        forall|i: int| 0 <= i < digits.len() ==> #[trigger] digits[i] != ',',
    ensures
        ({
            let n = digits.len() as int;
            let g = grouped_thousands(digits.take(k), n);
            let total = n + (n - 1) / 3;
            forall|p: int| 0 <= p < g.len() ==> (#[trigger] g[p] == ',' <==> 0 < p && (total - p)
                % 4 == 0)
        }),
    decreases k,
{
    let n = digits.len() as int;
    let total = n + (n - 1) / 3;
    let g = grouped_thousands(digits.take(k), n);
    lemma_grouped_prefix_len(digits, k);
    if k == 1 {
        assert(digits.take(1).drop_last() =~= Seq::<char>::empty());
        assert(g =~= seq![digits[0]]);
    } else {
        lemma_separator_prefix(digits, k - 1);
        lemma_grouped_prefix_len(digits, k - 1);
        let prev = grouped_thousands(digits.take(k - 1), n);
        assert(digits.take(k).drop_last() =~= digits.take(k - 1));
        assert(digits.take(k).last() == digits[k - 1]);
        let at = prev.len() as int;
        assert(at == k - 1 + (n - 1) / 3 - (n - k + 1) / 3);
        assert forall|p: int| 0 <= p < g.len() implies (#[trigger] g[p] == ',' <==> 0 < p && (total
            - p) % 4 == 0) by {
            if p < at {
                assert(g[p] == prev[p]);
            } else {
                let r = n - k + 1;
                assert(total - at == r + r / 3);
                if (n - (k - 1)) % 3 == 0 {
                    assert(r % 3 == 0);
                    assert((r + r / 3) % 4 == 0);
                } else {
                    assert(r % 3 != 0);
                    assert((r + r / 3) % 4 != 0);
                }
            }
        }
    }
}

/// Where the separators stand in a displayed price of `n >= 1` ASCII digits:
/// after `$` and the sign come the digits with a `,` wherever exactly a multiple
/// of four characters (three digits and their separator, per group) remain,
/// and nowhere else; deleting those commas gives back the digits.
pub proof fn lemma_separator_positions(negative: bool, digits: Seq<char>)
    requires
        digits.len() >= 1,
        is_ascii_chars(digits),
        forall|i: int| 0 <= i < digits.len() ==> #[trigger] digits[i] != ',',
    ensures
        ({
            let n = digits.len() as int;
            let g = grouped_thousands(digits, n);
            &&& whole_dollars_text(negative, digits) == seq!['$'] + (if negative {
                seq!['-']
            } else {
                Seq::empty()
            }) + g
            &&& g.len() == n + (n - 1) / 3
            &&& forall|p: int| 0 <= p < g.len() ==> (#[trigger] g[p] == ',' <==> 0 < p && (g.len()
                - p) % 4 == 0)
            &&& without_commas(g) == digits
        }),
{
    let n = digits.len() as int;
    is_ascii_chars_encode_utf8(digits);
    lemma_grouped_len(digits);
    lemma_separator_prefix(digits, n);
    assert(digits.take(n) =~= digits);
    lemma_grouping_only_adds_separators(digits, n);
    lemma_without_commas_none(digits);
}

/// Every character takes at least one byte in UTF-8.
proof fn lemma_encode_utf8_len(s: Seq<char>)
    ensures
        encode_utf8(s).len() >= s.len(),
    decreases s.len(),
{
    if s.len() > 0 {
        lemma_encode_utf8_len(s.drop_first());
    }
}

/// The displayed price: `$`, a minus sign when `negative`, then the decimal
/// `digits` of the whole-dollar amount with a `,` between groups of three
/// digits counted from the right, e.g. `(false, "67432")` -> `$67,432`.
pub fn format_whole_dollars(negative: bool, digits: &str) -> (s: String)
    requires
        encode_utf8(digits@).len() <= usize::MAX,
    ensures
        s@ == whole_dollars_text(negative, digits@),
{
    let len = digits.len();
    let cs = collect_chars(digits);
    proof {
        lemma_encode_utf8_len(digits@);
        reveal_strlit("$");
        reveal_strlit("-");
        reveal_strlit(",");
    }
    let mut out = String::new();
    out.append("$");
    if negative {
        out.append("-");
    }
    let ghost head = out@;
    let mut i: usize = 0;
    while i < cs.len()
        invariant
            i <= cs.len(),
            cs@ == digits@,
            len == encode_utf8(digits@).len(),
            len >= cs.len(),
            out@ == head + grouped_thousands(cs@.take(i as int), len as int),
            ",".view() == seq![','],
        decreases cs.len() - i,
    {
        if i > 0 && (len - i) % 3 == 0 {
            out.append(",");
        }
        push_char(&mut out, cs[i]);
        proof {
            assert(cs@.take(i + 1).drop_last() =~= cs@.take(i as int));
        }
        i = i + 1;
        assert(out@ =~= head + grouped_thousands(cs@.take(i as int), len as int));
    }
    assert(cs@.take(i as int) =~= digits@);
    out
}

} // verus!
