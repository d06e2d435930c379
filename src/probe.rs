use vstd::prelude::*;
use vstd::arithmetic::div_mod::lemma_fundamental_div_mod;
use crate::model::{Block, PcStatus};

verus! {

/// The number of pages of `page_size` bytes that cover `size` bytes.
pub open spec fn ceil_div(size: int, page_size: int) -> int {
    (size + page_size - 1) / page_size
}

/// Whether a residency flag marks its page as resident: its low-order bit.
pub open spec fn is_resident(flag: u8) -> bool {
    flag % 2 == 1
}

/// The number of flags in `flags` that mark a resident page.
pub open spec fn resident_count(flags: Seq<u8>) -> nat
    decreases flags.len(),
{
    if flags.len() == 0 {
        0
    } else {
        resident_count(flags.drop_last()) + if is_resident(flags.last()) {
            1nat
        } else {
            0nat
        }
    }
}

proof fn lemma_resident_count_bound(flags: Seq<u8>)
    ensures
        resident_count(flags) <= flags.len(),
    decreases flags.len(),
{
    if flags.len() > 0 {
        lemma_resident_count_bound(flags.drop_last());
    }
}

/// The number of pages that cover a file of `size` bytes.
pub fn page_count(size: usize, page_size: usize) -> (r: usize)
    requires
        page_size > 0,
    ensures
        r == ceil_div(size as int, page_size as int),
{
    let whole = size / page_size;
    proof {
        lemma_fundamental_div_mod(size as int, page_size as int);
    }
    if size % page_size == 0 {
        proof {
            assert(ceil_div(size as int, page_size as int) == whole) by (nonlinear_arith)
                requires
                    page_size > 0,
                    size as int == page_size * whole + 0,
            {
                assert(size + page_size - 1 == whole * page_size + (page_size - 1));
            }
        }
        whole
    } else {
        proof {
            let rem = size % page_size;
            assert(ceil_div(size as int, page_size as int) == whole + 1) by (nonlinear_arith)
                requires
                    page_size > 0,
                    0 < rem < page_size,
                    size as int == page_size * whole + rem,
            {
                assert(size + page_size - 1 == (whole + 1) * page_size + (rem - 1));
            }
            assert(whole < size) by (nonlinear_arith)
                requires
                    page_size > 0,
                    0 < rem,
                    size as int == page_size * whole + rem,
                    whole >= 0,
            {
            }
        }
        whole + 1
    }
}

/// Counts the flags that mark a resident page.
pub fn count_resident(flags: &Vec<u8>) -> (r: usize)
    ensures
        r == resident_count(flags@),
{
    let mut n: usize = 0;
    let mut i: usize = 0;
    while i < flags.len()
        invariant
            i <= flags.len(),
            n == resident_count(flags@.subrange(0, i as int)),
        decreases flags.len() - i,
    {
        proof {
            let next = flags@.subrange(0, i as int + 1);
            assert(next.drop_last() =~= flags@.subrange(0, i as int));
            lemma_resident_count_bound(flags@.subrange(0, i as int));
        }
        if flags[i] % 2 == 1 {
            n = n + 1;
        }
        i = i + 1;
    }
    assert(flags@.subrange(0, flags.len() as int) =~= flags@);
    n
}

/// The maximal runs of resident pages that `flags` marks, as half-open
/// ranges of page indices in increasing order.
pub open spec fn resident_runs(flags: Seq<u8>) -> Seq<Block>
    decreases flags.len(),
{
    if flags.len() == 0 {
        Seq::empty()
    } else {
        let r = resident_runs(flags.drop_last());
        let i = flags.len() - 1;
        if !is_resident(flags.last()) {
            r
        } else if r.len() > 0 && r.last().end == i {
            r.update(r.len() - 1, Block { begin: r.last().begin, end: (i + 1) as usize })
        } else {
            r.push(Block { begin: i as usize, end: (i + 1) as usize })
        }
    }
}

/// The maximal runs of resident pages that the flags mark.
pub fn resident_blocks(flags: &Vec<u8>) -> (r: Vec<Block>)
    ensures
        r@ == resident_runs(flags@),
{
    let mut r: Vec<Block> = Vec::new();
    let mut i: usize = 0;
    while i < flags.len()
        invariant
            i <= flags.len(),
            r@ == resident_runs(flags@.subrange(0, i as int)),
        decreases flags.len() - i,
    {
        proof {
            let next = flags@.subrange(0, i as int + 1);
            assert(next.drop_last() =~= flags@.subrange(0, i as int));
        }
        if flags[i] % 2 == 1 {
            let n = r.len();
            if n > 0 && r[n - 1].end == i {
                let begin = r[n - 1].begin;
                r.set(n - 1, Block::new(begin, i + 1));
            } else {
                r.push(Block::new(i, i + 1));
            }
        }
        i = i + 1;
    }
    assert(flags@.subrange(0, flags.len() as int) =~= flags@);
    r
}

/// Builds the record of one measured file from the residency flags that the
/// kernel reported for it, one flag per page.
pub fn file_page_stat(
    path: Vec<u8>,
    size: usize,
    page_size: usize,
    flags: &Vec<u8>,
    timestamp: u64,
    mtime: u64,
) -> (r: PcStatus)
    requires
        page_size > 0,
        flags.len() == ceil_div(size as int, page_size as int),
    ensures
        r.wf(),
        r.path == path,
        r.size == size,
        r.pages == ceil_div(size as int, page_size as int),
        r.cached == resident_count(flags@),
        r.uncached == r.pages - r.cached,
        r.cached_index@ == resident_runs(flags@),
        r.timestamp == timestamp,
        r.mtime == mtime,
{
    let pages = page_count(size, page_size);
    let cached = count_resident(flags);
    proof {
        lemma_resident_count_bound(flags@);
    }
    let blocks = resident_blocks(flags);
    PcStatus::new(path, size, pages, cached, pages - cached, timestamp, mtime, blocks)
}

} // verus!
