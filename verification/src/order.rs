//! The order of report lines, and sorting by it.
//!
//! Lines are compared character by character; where one line is the
//! beginning of the other, the shorter comes first.
use crate::search::{first_index, lemma_first_index, lemma_first_index_agree, lemma_first_index_unique};
use crate::text::{chars_of, texts, views};
use vstd::prelude::*;
use vstd::relations::{sorted_by, total_ordering};
use vstd::multiset::{lemma_multiset_empty_len, Multiset};
use vstd::seq_lib::{lemma_sorted_unique, to_multiset_build, to_multiset_insert, to_multiset_len};

verus! {

/// Whether two texts have different characters at a position.
pub open spec fn differs(a: Seq<char>, b: Seq<char>) -> spec_fn(int) -> bool {
    |i: int| a[i] != b[i]
}

/// The length of the shorter of two texts.
pub open spec fn common_len(a: Seq<char>, b: Seq<char>) -> int {
    if a.len() <= b.len() {
        a.len() as int
    } else {
        b.len() as int
    }
}

/// The first position at which two texts differ, or the length of the
/// shorter if they agree that far.
pub open spec fn first_difference(a: Seq<char>, b: Seq<char>) -> int {
    first_index(differs(a, b), 0, common_len(a, b))
}

/// Whether `a` comes before `b` or equals it.
pub open spec fn lex_le(a: Seq<char>, b: Seq<char>) -> bool {
    let k = first_difference(a, b);
    if k < common_len(a, b) {
        a[k] < b[k]
    } else {
        a.len() <= b.len()
    }
}

/// The order of lines as a relation.
pub open spec fn line_order() -> spec_fn(Seq<char>, Seq<char>) -> bool {
    |a: Seq<char>, b: Seq<char>| lex_le(a, b)
}

/// What `first_difference` returns: the texts agree before it and differ at
/// it, unless it is the end of the shorter.
pub proof fn lemma_first_difference(a: Seq<char>, b: Seq<char>)
    ensures
        0 <= first_difference(a, b) <= common_len(a, b),
        first_difference(a, b) == first_difference(b, a),
        first_difference(a, b) < common_len(a, b) ==> a[first_difference(a, b)]
            != b[first_difference(a, b)],
        forall|j: int| 0 <= j < first_difference(a, b) ==> a[j] == b[j],
{
    lemma_first_index(differs(a, b), 0, common_len(a, b));
    lemma_first_index_agree(differs(a, b), differs(b, a), 0, common_len(a, b));
    assert forall|j: int| 0 <= j < first_difference(a, b) implies a[j] == b[j] by {
        assert(!differs(a, b)(j));
    }
}

/// The order is reflexive.
pub proof fn lemma_lex_le_reflexive(a: Seq<char>)
    ensures
        lex_le(a, a),
{
    lemma_first_difference(a, a);
}

/// Of two texts, one comes before the other or equals it.
pub proof fn lemma_lex_le_connected(a: Seq<char>, b: Seq<char>)
    ensures
        lex_le(a, b) || lex_le(b, a),
{
    lemma_first_difference(a, b);
}

/// Two texts that each come before or equal the other are the same text.
pub proof fn lemma_lex_le_antisymmetric(a: Seq<char>, b: Seq<char>)
    requires
        lex_le(a, b),
        lex_le(b, a),
    ensures
        a == b,
{
    lemma_first_difference(a, b);
    assert(a =~= b);
}

/// The order is transitive.
pub proof fn lemma_lex_le_transitive(a: Seq<char>, b: Seq<char>, c: Seq<char>)
    requires
        lex_le(a, b),
        lex_le(b, c),
    ensures
        lex_le(a, c),
{
    lemma_first_difference(a, b);
    lemma_first_difference(b, c);
    lemma_first_difference(a, c);
    let k1 = first_difference(a, b);
    let k2 = first_difference(b, c);
    let k3 = first_difference(a, c);
    if k3 < common_len(a, c) {
        if k3 < k1 && k3 < k2 {
            assert(a[k3] == b[k3]);
            assert(b[k3] == c[k3]);
        } else if k1 < k2 {
            assert(b[k1] == c[k1]);
            assert(k3 <= k1) by {
                if k1 < k3 {
                    assert(a[k1] == c[k1]);
                }
            }
        } else if k2 < k1 {
            assert(a[k2] == b[k2]);
            assert(k3 <= k2) by {
                if k2 < k3 {
                    assert(a[k2] == c[k2]);
                }
            }
        } else {
            if k1 < b.len() {
                assert(k3 <= k1) by {
                    if k1 < k3 {
                        assert(a[k1] == c[k1]);
                    }
                }
            }
        }
    } else if a.len() > c.len() {
        if k2 < common_len(b, c) {
            assert(a[k2] == c[k2]);
            if k1 < k2 {
                assert(b[k1] == c[k1]);
                assert(a[k1] == c[k1]);
            } else if k1 > k2 {
                assert(a[k2] == b[k2]);
            }
        } else {
            if k1 < b.len() {
                assert(b[k1] == c[k1]);
                assert(a[k1] == c[k1]);
            }
        }
    }
}

/// The order of lines is a total order.
pub proof fn lemma_line_order_total()
    ensures
        total_ordering(line_order()),
{
    let leq = line_order();
    assert forall|a: Seq<char>| #[trigger] leq(a, a) by {
        lemma_lex_le_reflexive(a);
    }
    assert forall|a: Seq<char>, b: Seq<char>| #[trigger] leq(a, b) && #[trigger] leq(b, a) implies a
        == b by {
        lemma_lex_le_antisymmetric(a, b);
    }
    assert forall|a: Seq<char>, b: Seq<char>, c: Seq<char>| #[trigger]
        leq(a, b) && #[trigger] leq(b, c) implies leq(a, c) by {
        lemma_lex_le_transitive(a, b, c);
    }
    assert forall|a: Seq<char>, b: Seq<char>| #[trigger] leq(a, b) || #[trigger] leq(b, a) by {
        lemma_lex_le_connected(a, b);
    }
}

/// The lines in ascending order.
pub open spec fn sorted_lines(lines: Seq<Seq<char>>) -> Seq<Seq<char>> {
    lines.sort_by(line_order())
}

/// Sorted lines are in ascending order and are the lines that were given,
/// each as often as it was given.
pub proof fn lemma_sorted_lines(lines: Seq<Seq<char>>)
    ensures
        sorted_by(sorted_lines(lines), line_order()),
        sorted_lines(lines).to_multiset() == lines.to_multiset(),
        sorted_lines(lines).len() == lines.len(),
{
    lemma_line_order_total();
    lines.lemma_sort_by_ensures(line_order());
    lines.to_multiset_ensures();
    sorted_lines(lines).to_multiset_ensures();
}

/// Lines in ascending order that hold what `lines` holds are the sorted
/// lines: there is one way only to sort.
pub proof fn lemma_sorted_lines_unique(lines: Seq<Seq<char>>, sorted: Seq<Seq<char>>)
    requires
        sorted_by(sorted, line_order()),
        sorted.to_multiset() == lines.to_multiset(),
    ensures
        sorted == sorted_lines(lines),
{
    lemma_line_order_total();
    lemma_sorted_lines(lines);
    lemma_sorted_unique(sorted, sorted_lines(lines), line_order());
}

/// Sorting lines that are sorted changes nothing: sorting twice gives what
/// sorting once gives.
pub proof fn lemma_sort_idempotent(lines: Seq<Seq<char>>)
    ensures
        sorted_lines(sorted_lines(lines)) == sorted_lines(lines),
{
    lemma_sorted_lines(lines);
    lemma_sorted_lines_unique(sorted_lines(lines), sorted_lines(lines));
}

/// Whether `a` comes before `b` or equals it.
pub fn is_lex_le(a: &Vec<char>, b: &Vec<char>) -> (r: bool)
    ensures
        r == lex_le(a@, b@),
{
    let ghost differ = differs(a@, b@);
    let mut i: usize = 0;
    while i < a.len() && i < b.len()
        invariant
            i <= a.len(),
            i <= b.len(),
            differ == differs(a@, b@),
            forall|j: int| 0 <= j < i ==> !#[trigger] differ(j),
        decreases a.len() - i,
    {
        if a[i] != b[i] {
            proof {
                lemma_first_index_unique(differ, 0, common_len(a@, b@), i as int);
            }
            return a[i] < b[i];
        }
        i += 1;
    }
    proof {
        lemma_first_index_unique(differ, 0, common_len(a@, b@), i as int);
    }
    a.len() <= b.len()
}

/// Sorts lines into ascending order.
pub fn sort_lines(lines: Vec<String>) -> (out: Vec<String>)
    ensures
        texts(out@) == sorted_lines(texts(lines@)),
{
    let ghost given = texts(lines@);
    let mut rest = lines;
    let mut out: Vec<String> = Vec::new();
    // The characters of each line of `out`, to compare by.
    let mut keys: Vec<Vec<char>> = Vec::new();
    proof {
        lemma_line_order_total();
        to_multiset_len(texts(out@));
        lemma_multiset_empty_len(texts(out@).to_multiset());
        assert(texts(out@).to_multiset().add(texts(rest@).to_multiset())
            =~= given.to_multiset());
        assert(views(keys@) =~= texts(out@));
    }
    while rest.len() > 0
        invariant
            total_ordering(line_order()),
            views(keys@) == texts(out@),
            sorted_by(texts(out@), line_order()),
            texts(out@).to_multiset().add(texts(rest@).to_multiset()) == given.to_multiset(),
        decreases rest.len(),
    {
        let ghost rest_before = texts(rest@);
        let ghost out_before = texts(out@);
        let line = rest.pop().unwrap();
        let key = chars_of(line.as_str());
        let mut k: usize = 0;
        while k < keys.len() && !is_lex_le(&key, &keys[k])
            invariant
                k <= keys.len(),
                out_before == views(keys@),
                forall|j: int| 0 <= j < k ==> !lex_le(key@, #[trigger] out_before[j]),
            decreases keys.len() - k,
        {
            k += 1;
        }
        assert(keys.len() == out.len()) by {
            assert(views(keys@).len() == texts(out@).len());
        }
        out.insert(k, line);
        keys.insert(k, key);
        proof {
            let leq = line_order();
            let out_after = texts(out@);
            assert(out_after =~= out_before.insert(k as int, line@));
            assert(views(keys@) =~= out_after);
            assert(rest_before =~= texts(rest@).push(line@));
            to_multiset_build(texts(rest@), line@);
            to_multiset_insert(out_before, k as int, line@);
            assert(out_after.to_multiset().add(texts(rest@).to_multiset())
                =~= out_before.to_multiset().add(rest_before.to_multiset()));
            assert forall|i: int, j: int| 0 <= i < j < out_after.len() implies #[trigger] leq(
                out_after[i],
                out_after[j],
            ) by {
                if j < k {
                    assert(leq(out_before[i], out_before[j]));
                } else if j == k {
                    assert(!lex_le(line@, out_before[i]));
                    assert(leq(line@, out_before[i]) || leq(out_before[i], line@));
                } else if i < k {
                    assert(leq(out_before[i], out_before[j - 1]));
                } else if i == k {
                    assert(lex_le(line@, out_before[k as int]));
                    if j - 1 > k {
                        assert(leq(out_before[k as int], out_before[j - 1]));
                        assert(leq(line@, out_before[k as int]));
                    }
                } else {
                    assert(leq(out_before[i - 1], out_before[j - 1]));
                }
            }
        }
    }
    proof {
        to_multiset_len(texts(rest@));
        lemma_multiset_empty_len(texts(rest@).to_multiset());
        assert(texts(out@).to_multiset() =~= texts(out@).to_multiset().add(
            Multiset::<Seq<char>>::empty(),
        ));
        lemma_sorted_lines_unique(given, texts(out@));
    }
    out
}

} // verus!
