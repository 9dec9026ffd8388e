//! The frequency table: one entry per distinct symbol of the stream, in
//! first-appearance order, counting its occurrences.

use vstd::prelude::*;

use crate::tree::TreeNode;
use crate::tree::all_symbols;
use crate::tree::all_wf;
use crate::tree::sum_weights;

verus! {

/// Some entry of the table carries key `c`.
pub open spec fn has_key(tab: Seq<(char, nat)>, c: char) -> bool {
    exists|i: int| 0 <= i < tab.len() && (#[trigger] tab[i]).0 == c
}

/// The table with the count of key `c` raised by one.
pub open spec fn bump(tab: Seq<(char, nat)>, c: char) -> Seq<(char, nat)> {
    tab.map_values(
        |e: (char, nat)|
            if e.0 == c {
                (e.0, (e.1 + 1) as nat)
            } else {
                e
            },
    )
}

/// The frequency table of a stream.
pub open spec fn freq_spec(stream: Seq<char>) -> Seq<(char, nat)>
    decreases stream.len(),
{
    if stream.len() == 0 {
        Seq::empty()
    } else {
        let prev = freq_spec(stream.drop_last());
        if has_key(prev, stream.last()) {
            bump(prev, stream.last())
        } else {
            prev.push((stream.last(), 1nat))
        }
    }
}

/// The sum of all counts of the table.
pub open spec fn sum_vals(tab: Seq<(char, nat)>) -> int
    decreases tab.len(),
{
    if tab.len() == 0 {
        0
    } else {
        sum_vals(tab.drop_last()) + tab.last().1
    }
}

/// No two entries of the table share a key.
pub open spec fn unique_keys(tab: Seq<(char, nat)>) -> bool {
    forall|i: int, j: int|
        0 <= i < j < tab.len() ==> (#[trigger] tab[i]).0 != (#[trigger] tab[j]).0
}

/// The table a counts vector stands for.
pub open spec fn counts_view(v: Seq<(char, u32)>) -> Seq<(char, nat)> {
    v.map_values(|e: (char, u32)| (e.0, e.1 as nat))
}

/// One leaf per table entry, carrying its key and weighted by its count.
pub open spec fn leaves_of(tab: Seq<(char, nat)>) -> Seq<TreeNode> {
    tab.map_values(
        |e: (char, nat)|
            TreeNode { value: e.1 as u32, left: None, right: None, character: Some(e.0) },
    )
}

/// A frequency table never repeats a key.
pub proof fn lemma_freq_unique(stream: Seq<char>)
    ensures
        unique_keys(freq_spec(stream)),
    decreases stream.len(),
{
    if stream.len() > 0 {
        lemma_freq_unique(stream.drop_last());
        let prev = freq_spec(stream.drop_last());
        let c = stream.last();
        if has_key(prev, c) {
            assert(forall|i: int| 0 <= i < prev.len() ==> (#[trigger] bump(prev, c)[i]).0 == prev[i].0);
        }
    }
}

/// Every count of the table of a stream lies between 1 and the stream's
/// length.
pub proof fn lemma_freq_bounds(stream: Seq<char>)
    ensures
        forall|i: int|
            0 <= i < freq_spec(stream).len() ==> 1 <= (#[trigger] freq_spec(stream)[i]).1
                <= stream.len(),
    decreases stream.len(),
{
    if stream.len() > 0 {
        let d = stream.drop_last();
        lemma_freq_bounds(d);
        let prev = freq_spec(d);
        let c = stream.last();
        if has_key(prev, c) {
            assert forall|i: int| 0 <= i < freq_spec(stream).len() implies 1 <= (
            #[trigger] freq_spec(stream)[i]).1 <= stream.len() by {
                assert(freq_spec(stream)[i] == bump(prev, c)[i]);
                assert(1 <= prev[i].1 <= d.len());
            }
        } else {
            assert forall|i: int| 0 <= i < freq_spec(stream).len() implies 1 <= (
            #[trigger] freq_spec(stream)[i]).1 <= stream.len() by {
                if i < prev.len() {
                    assert(1 <= prev[i].1 <= d.len());
                }
            }
        }
    }
}

/// Raising one present key's count raises the total by one.
proof fn lemma_sum_vals_bump(tab: Seq<(char, nat)>, c: char)
    requires
        unique_keys(tab),
        has_key(tab, c),
    ensures
        sum_vals(bump(tab, c)) == sum_vals(tab) + 1,
    decreases tab.len(),
{
    let d = tab.drop_last();
    assert(bump(tab, c).drop_last() =~= bump(d, c));
    assert(bump(tab, c).last() == if tab.last().0 == c {
        (tab.last().0, (tab.last().1 + 1) as nat)
    } else {
        tab.last()
    });
    if tab.last().0 == c {
        assert(forall|i: int| 0 <= i < d.len() ==> (#[trigger] d[i]).0 != c);
        assert(bump(d, c) =~= d);
    } else {
        let i = choose|i: int| 0 <= i < tab.len() && (#[trigger] tab[i]).0 == c;
        assert(d[i] == tab[i]);
        assert(has_key(d, c));
        lemma_sum_vals_bump(d, c);
    }
}

/// Appending one entry adds its count to the total.
proof fn lemma_sum_vals_push(tab: Seq<(char, nat)>, e: (char, nat))
    ensures
        sum_vals(tab.push(e)) == sum_vals(tab) + e.1,
{
    assert(tab.push(e).drop_last() =~= tab);
}

/// The counts of a stream's table add up to the stream's length.
pub proof fn lemma_freq_sum(stream: Seq<char>)
    ensures
        sum_vals(freq_spec(stream)) == stream.len(),
    decreases stream.len(),
{
    if stream.len() > 0 {
        let d = stream.drop_last();
        lemma_freq_sum(d);
        let prev = freq_spec(d);
        let c = stream.last();
        if has_key(prev, c) {
            lemma_freq_unique(d);
            lemma_sum_vals_bump(prev, c);
        } else {
            lemma_sum_vals_push(prev, (c, 1nat));
        }
    }
}

/// A stream's table carries exactly the symbols the stream holds.
pub proof fn lemma_freq_has_key(stream: Seq<char>, c: char)
    ensures
        has_key(freq_spec(stream), c) <==> stream.contains(c),
    decreases stream.len(),
{
    if stream.len() == 0 {
        assert(!stream.contains(c));
    } else {
        let d = stream.drop_last();
        lemma_freq_has_key(d, c);
        let prev = freq_spec(d);
        let last = stream.last();
        if has_key(prev, last) {
            assert(forall|i: int| 0 <= i < prev.len() ==> (#[trigger] bump(prev, last)[i]).0 == prev[i].0);
            assert(has_key(bump(prev, last), c) <==> has_key(prev, c)) by {
                if has_key(prev, c) {
                    let i = choose|i: int| 0 <= i < prev.len() && (#[trigger] prev[i]).0 == c;
                    assert(bump(prev, last)[i].0 == c);
                }
                if has_key(bump(prev, last), c) {
                    let i = choose|i: int|
                        0 <= i < bump(prev, last).len() && (#[trigger] bump(prev, last)[i]).0 == c;
                    assert(prev[i].0 == c);
                }
            }
            if c == last {
                assert(stream.contains(c)) by {
                    assert(stream[stream.len() - 1] == c);
                }
            }
        } else {
            let tab = prev.push((last, 1nat));
            if c == last {
                assert(tab[tab.len() - 1].0 == c);
                assert(has_key(tab, c));
                assert(stream[stream.len() - 1] == c);
                assert(stream.contains(c));
            } else {
                assert(has_key(tab, c) <==> has_key(prev, c)) by {
                    if has_key(prev, c) {
                        let i = choose|i: int| 0 <= i < prev.len() && (#[trigger] prev[i]).0 == c;
                        assert(tab[i].0 == c);
                    }
                    if has_key(tab, c) {
                        let i = choose|i: int| 0 <= i < tab.len() && (#[trigger] tab[i]).0 == c;
                        assert(i < prev.len());
                        assert(prev[i].0 == c);
                    }
                }
            }
        }
        assert(stream.contains(c) <==> (d.contains(c) || c == last)) by {
            if stream.contains(c) {
                let i = choose|i: int| 0 <= i < stream.len() && stream[i] == c;
                if i < stream.len() - 1 {
                    assert(d[i] == c);
                    assert(d.contains(c));
                }
            }
            if d.contains(c) {
                let i = choose|i: int| 0 <= i < d.len() && d[i] == c;
                assert(stream[i] == c);
            }
            if c == last {
                assert(stream[stream.len() - 1] == c);
            }
        }
    }
}

/// The leaves of a table whose counts fit a `u32` are well-formed,
/// weigh its total in sum, and carry its keys as their symbols.
pub proof fn lemma_leaves(tab: Seq<(char, nat)>)
    requires
        forall|i: int| 0 <= i < tab.len() ==> 1 <= (#[trigger] tab[i]).1 <= u32::MAX,
    ensures
        all_wf(leaves_of(tab)),
        sum_weights(leaves_of(tab)) == sum_vals(tab),
        all_symbols(leaves_of(tab)) =~= Set::new(|c: char| has_key(tab, c)),
    decreases tab.len(),
{
    let lv = leaves_of(tab);
    assert(forall|i: int| 0 <= i < tab.len() ==> (#[trigger] lv[i]).wf());
    if tab.len() == 0 {
        assert(all_symbols(lv) =~= Set::new(|c: char| has_key(tab, c))) by {
            assert(forall|c: char| !has_key(tab, c));
        }
    } else {
        let d = tab.drop_last();
        lemma_leaves(d);
        assert(lv.drop_last() =~= leaves_of(d));
        assert(lv.last() == lv[tab.len() - 1]);
        assert(sum_weights(lv) == sum_weights(leaves_of(d)) + tab.last().1);
        assert(sum_vals(tab) == sum_vals(d) + tab.last().1);
        assert(all_symbols(lv) =~= Set::new(|c: char| has_key(tab, c))) by {
            assert(all_symbols(lv) =~= all_symbols(leaves_of(d)).union(lv.last().symbols()));
            assert(lv.last().symbols() =~= set![tab.last().0]);
            assert forall|c: char| has_key(tab, c) <==> (has_key(d, c) || c == tab.last().0) by {
                if has_key(tab, c) {
                    let i = choose|i: int| 0 <= i < tab.len() && (#[trigger] tab[i]).0 == c;
                    if i < tab.len() - 1 {
                        assert(d[i].0 == c);
                    }
                }
                if has_key(d, c) {
                    let i = choose|i: int| 0 <= i < d.len() && (#[trigger] d[i]).0 == c;
                    assert(tab[i].0 == c);
                }
                if c == tab.last().0 {
                    assert(tab[tab.len() - 1].0 == c);
                }
            }
        }
    }
}

} // verus!
