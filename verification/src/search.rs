use vstd::prelude::*;

verus! {

/// Every entry is smaller than the entries after it.
pub open spec fn ascending32(s: Seq<u32>) -> bool {
    forall|i: int, j: int| 0 <= i < j < s.len() ==> s[i] < s[j]
}

/// Every entry is smaller than the entries after it.
pub open spec fn ascending64(s: Seq<u64>) -> bool {
    forall|i: int, j: int| 0 <= i < j < s.len() ==> s[i] < s[j]
}

/// Position of a value in an ascending table, if it is there.
pub fn find32(table: &Vec<u32>, x: u32) -> (r: Option<usize>)
    requires
        ascending32(table@),
    ensures
        match r {
            Some(i) => i < table@.len() && table@[i as int] == x,
            None => !table@.contains(x),
        },
{
    let mut lo: usize = 0;
    let mut hi: usize = table.len();
    while lo < hi
        invariant
            lo <= hi <= table@.len(),
            ascending32(table@),
            forall|i: int| 0 <= i < lo ==> table@[i] < x,
            forall|i: int| hi <= i < table@.len() ==> table@[i] > x,
        decreases hi - lo,
    {
        let mid = lo + (hi - lo) / 2;
        let y = table[mid];
        if y == x {
            return Some(mid);
        } else if y < x {
            lo = mid + 1;
        } else {
            hi = mid;
        }
    }
    None
}

/// Position of a value in an ascending table, if it is there.
pub fn find64(table: &Vec<u64>, x: u64) -> (r: Option<usize>)
    requires
        ascending64(table@),
    ensures
        match r {
            Some(i) => i < table@.len() && table@[i as int] == x,
            None => !table@.contains(x),
        },
{
    let mut lo: usize = 0;
    let mut hi: usize = table.len();
    while lo < hi
        invariant
            lo <= hi <= table@.len(),
            ascending64(table@),
            forall|i: int| 0 <= i < lo ==> table@[i] < x,
            forall|i: int| hi <= i < table@.len() ==> table@[i] > x,
        decreases hi - lo,
    {
        let mid = lo + (hi - lo) / 2;
        let y = table[mid];
        if y == x {
            return Some(mid);
        } else if y < x {
            lo = mid + 1;
        } else {
            hi = mid;
        }
    }
    None
}

} // verus!
