//! Lists whose rows follow the committed children: how a message list
//! splices its rows when the children change, where the row a reader was
//! looking at moves to, and which rows a virtual list can address.
use vstd::prelude::*;

verus! {

/// `p` is the length of the longest common prefix of `a` and `b`.
pub open spec fn is_common_prefix(a: Seq<u32>, b: Seq<u32>, p: int) -> bool {
    &&& 0 <= p <= a.len()
    &&& p <= b.len()
    &&& a.take(p) == b.take(p)
    &&& (p == a.len() || p == b.len() || a[p] != b[p])
}

/// Past a common prefix of length `p`, `s` is the length of the longest
/// common suffix of `a` and `b`.
pub open spec fn is_common_suffix(a: Seq<u32>, b: Seq<u32>, p: int, s: int) -> bool {
    &&& 0 <= s
    &&& p + s <= a.len()
    &&& p + s <= b.len()
    &&& a.skip(a.len() - s) == b.skip(b.len() - s)
    &&& (p + s == a.len() || p + s == b.len() || a[a.len() - 1 - s] != b[b.len() - 1 - s])
}

/// The least edit of a row list: rows `start..end` of the old list are
/// replaced by `inserted` new rows.
#[derive(Clone, Copy, Debug, PartialEq, Eq, Structural)]
pub struct RowSplice {
    pub start: usize,
    pub end: usize,
    pub inserted: usize,
}

/// `r` keeps the longest common prefix of the old and new child ids and,
/// after it, their longest common suffix, and replaces what lies between.
pub open spec fn splice_of(old: Seq<u32>, new: Seq<u32>, r: RowSplice) -> bool {
    let p = r.start as int;
    let s = old.len() - r.end;
    &&& r.start <= r.end <= old.len()
    &&& is_common_prefix(old, new, p)
    &&& is_common_suffix(old, new, p, s)
    &&& r.inserted == new.len() - p - s
}

/// The old rows with a splice applied, taking the inserted rows from `new`.
pub open spec fn apply_splice(old: Seq<u32>, new: Seq<u32>, r: RowSplice) -> Seq<u32> {
    old.take(r.start as int) + new.subrange(r.start as int, r.start + r.inserted) + old.skip(
        r.end as int,
    )
}

/// The splice that turns the rows of child ids `old` into those of `new`.
pub fn row_splice(old: &Vec<u32>, new: &Vec<u32>) -> (r: RowSplice)
    ensures
        splice_of(old@, new@, r),
{
    let n = old.len();
    let m = new.len();
    let mut p: usize = 0;
    while p < n && p < m && old[p] == new[p]
        invariant
            n == old@.len(),
            m == new@.len(),
            p <= n,
            p <= m,
            old@.take(p as int) == new@.take(p as int),
        decreases n - p,
    {
        proof {
            assert(old@.take(p + 1) =~= old@.take(p as int).push(old@[p as int]));
            assert(new@.take(p + 1) =~= new@.take(p as int).push(new@[p as int]));
        }
        p = p + 1;
    }
    let mut s: usize = 0;
    while s < n - p && s < m - p && old[n - 1 - s] == new[m - 1 - s]
        invariant
            n == old@.len(),
            m == new@.len(),
            p <= n,
            p <= m,
            s <= n - p,
            s <= m - p,
            old@.skip(n - s) == new@.skip(m - s),
        decreases n - p - s,
    {
        proof {
            assert(old@.skip(n - s - 1) =~= seq![old@[n - 1 - s]] + old@.skip(n - s));
            assert(new@.skip(m - s - 1) =~= seq![new@[m - 1 - s]] + new@.skip(m - s));
        }
        s = s + 1;
    }
    RowSplice { start: p, end: n - s, inserted: m - p - s }
}

/// The splice rebuilds the new rows: the kept prefix, the inserted rows
/// and the kept suffix are exactly the new list.
pub proof fn law_splice_rebuilds_new(old: Seq<u32>, new: Seq<u32>, r: RowSplice)
    requires
        splice_of(old, new, r),
    ensures
        apply_splice(old, new, r) == new,
{
    let p = r.start as int;
    let s = old.len() - r.end;
    let out = apply_splice(old, new, r);
    assert(out.len() == new.len());
    assert forall|k: int| 0 <= k < new.len() implies #[trigger] out[k] == new[k] by {
        if k < p {
            assert(old.take(p)[k] == new.take(p)[k]);
        } else if k >= new.len() - s {
            let j = k - (new.len() - s);
            assert(old.skip(old.len() - s)[j] == new.skip(new.len() - s)[j]);
        }
    }
    assert(out =~= new);
}

/// Where the row a reader was looking at sits after the rows change: when
/// the list does not follow its tail and row `anchor` of the old ids is
/// still present, the first place of its id among the new ids.
pub fn relocated_anchor(old: &Vec<u32>, new: &Vec<u32>, following: bool, anchor: usize) -> (r:
    Option<usize>)
    ensures
        match r {
            Some(i) => {
                &&& !following
                &&& anchor < old@.len()
                &&& i < new@.len()
                &&& new@[i as int] == old@[anchor as int]
                &&& forall|j: int| 0 <= j < i ==> new@[j] != old@[anchor as int]
            },
            None => following || anchor >= old@.len() || !new@.contains(old@[anchor as int]),
        },
{
    if following || anchor >= old.len() {
        return None;
    }
    let key = old[anchor];
    let mut i: usize = 0;
    while i < new.len()
        invariant
            i <= new@.len(),
            !following,
            anchor < old@.len(),
            key == old@[anchor as int],
            forall|j: int| 0 <= j < i ==> new@[j] != key,
        decreases new@.len() - i,
    {
        if new[i] == key {
            return Some(i);
        }
        i = i + 1;
    }
    None
}

/// The children of a virtual list: at most 1000000, and one explicit
/// extent per child when extents are given.
pub fn check_list_children(count: usize, extents: Option<usize>) -> (r: Result<(), String>)
    ensures
        match r {
            Ok(()) => count <= 1_000_000 && (extents matches Some(e) ==> e == count),
            Err(m) => (count > 1_000_000 || (extents matches Some(e) && e != count))
                && m@ == "itemSizes must contain one extent per child (at most 1000000)"@,
        },
{
    let mismatched = match extents {
        Some(e) => e != count,
        None => false,
    };
    if count > 1_000_000 || mismatched {
        return Err(String::from_str("itemSizes must contain one extent per child (at most 1000000)"));
    }
    Ok(())
}

/// A row index that a scroll command may name: one of the committed rows.
pub fn check_row_index(index: usize, count: usize) -> (r: Result<(), String>)
    ensures
        match r {
            Ok(()) => index < count,
            Err(m) => index >= count && m@ == "item index outside committed children"@,
        },
{
    if index >= count {
        return Err(String::from_str("item index outside committed children"));
    }
    Ok(())
}

/// The panels of a resizable group: at most 128, and one explicit size per
/// panel when sizes are given.
pub fn check_panel_children(count: usize, sizes: Option<usize>) -> (r: Result<(), String>)
    ensures
        match r {
            Ok(()) => count <= 128 && (sizes matches Some(e) ==> e == count),
            Err(m) => (count > 128 || (sizes matches Some(e) && e != count))
                && m@ == "sizes must contain one extent per panel, with at most 128 panels"@,
        },
{
    let mismatched = match sizes {
        Some(e) => e != count,
        None => false,
    };
    if count > 128 || mismatched {
        return Err(String::from_str("sizes must contain one extent per panel, with at most 128 panels"));
    }
    Ok(())
}

} // verus!
