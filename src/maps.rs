use vstd::prelude::*;
use crate::text::{
    copy_bytes, dedup, fields, is_space, is_space_byte, line_len, lines, push_unique, token_len,
    views,
};

verus! {

/// The file path that one line of a process mapping table names: its sixth
/// field, where the line has exactly six fields and that field is absolute.
pub open spec fn line_path(line: Seq<u8>) -> Option<Seq<u8>> {
    let f = fields(line);
    if f.len() == 6 && f[5].len() > 0 && f[5][0] == 47 {
        Some(f[5])
    } else {
        None
    }
}

/// The paths that the lines `ls` name, in order, repeats included.
pub open spec fn paths_of(ls: Seq<Seq<u8>>) -> Seq<Seq<u8>>
    decreases ls.len(),
{
    if ls.len() == 0 {
        Seq::empty()
    } else {
        match line_path(ls.last()) {
            Some(p) => paths_of(ls.drop_last()).push(p),
            None => paths_of(ls.drop_last()),
        }
    }
}

/// The distinct file paths that a process mapping table names, in the order
/// of their first occurrence.
pub open spec fn mapped_paths(text: Seq<u8>) -> Seq<Seq<u8>> {
    dedup(paths_of(lines(text)))
}

/// The file path named by one line of a process mapping table, if any.
pub fn line_path_of(line: &[u8]) -> (r: Option<Vec<u8>>)
    ensures
        match r {
            Some(p) => line_path(line@) == Some(p@),
            None => line_path(line@) is None,
        },
{
    let n = line.len();
    let mut i: usize = 0;
    let mut count: usize = 0;
    let mut six_start: usize = 0;
    let mut six_end: usize = 0;
    let ghost mut acc: Seq<Seq<u8>> = Seq::empty();
    assert(line@.skip(0) =~= line@);
    while i < n
        invariant
            n == line@.len(),
            i <= n,
            count <= i,
            count == acc.len(),
            fields(line@) == acc + fields(line@.skip(i as int)),
            count >= 6 ==> six_start <= six_end <= n && acc[5] == line@.subrange(
                six_start as int,
                six_end as int,
            ),
            forall|k: int| 0 <= k < acc.len() ==> (#[trigger] acc[k]).len() > 0,
        decreases n - i,
    {
        if is_space_byte(line[i]) {
            assert(line@.skip(i as int).drop_first() =~= line@.skip(i as int + 1));
            i = i + 1;
        } else {
            let start = i;
            assert(line@.skip(start as int).drop_first() =~= line@.skip(start as int + 1));
            while i < n && !is_space_byte(line[i])
                invariant
                    n == line@.len(),
                    start < n,
                    !is_space(line@[start as int]),
                    start <= i <= n,
                    token_len(line@.skip(start as int)) == (i - start) + token_len(
                        line@.skip(i as int),
                    ),
                decreases n - i,
            {
                assert(line@.skip(i as int).drop_first() =~= line@.skip(i as int + 1));
                i = i + 1;
            }
            proof {
                let s = line@.skip(start as int);
                assert(token_len(line@.skip(i as int)) == 0);
                assert(s[0] == line@[start as int]);
                assert(i > start) by {
                    if i == start {
                        assert(line@.skip(i as int)[0] == line@[start as int]);
                    }
                }
                assert(s.take(i - start) =~= line@.subrange(start as int, i as int));
                assert(s.skip(i - start) =~= line@.skip(i as int));
                assert(fields(s) == seq![line@.subrange(start as int, i as int)] + fields(
                    line@.skip(i as int),
                ));
                assert(acc + fields(s) =~= acc.push(line@.subrange(start as int, i as int))
                    + fields(line@.skip(i as int)));
            }
            if count == 5 {
                six_start = start;
                six_end = i;
            }
            proof {
                acc = acc.push(line@.subrange(start as int, i as int));
            }
            count = count + 1;
        }
    }
    proof {
        assert(line@.skip(n as int) =~= Seq::<u8>::empty());
        assert(fields(line@) =~= acc);
    }
    if count == 6 && line[six_start] == 47 {
        Some(copy_bytes(&line[six_start..six_end]))
    } else {
        None
    }
}

/// The distinct absolute file paths that a process mapping table names, in
/// the order of their first occurrence. Lines that do not have exactly six
/// fields, or whose sixth field is not absolute, name nothing.
pub fn parse_maps(text: &[u8]) -> (r: Vec<Vec<u8>>)
    ensures
        views(r@) == mapped_paths(text@),
{
    let n = text.len();
    let mut r: Vec<Vec<u8>> = Vec::new();
    let mut i: usize = 0;
    let ghost mut done: Seq<Seq<u8>> = Seq::empty();
    assert(text@.skip(0) =~= text@);
    assert(views(r@) =~= dedup(paths_of(done)));
    while i < n
        invariant
            n == text@.len(),
            i <= n,
            lines(text@) == done + lines(text@.skip(i as int)),
            views(r@) == dedup(paths_of(done)),
        decreases n - i,
    {
        let start = i;
        while i < n && text[i] != 10
            invariant
                n == text@.len(),
                start < n,
                start <= i <= n,
                line_len(text@.skip(start as int)) == (i - start) + line_len(
                    text@.skip(i as int),
                ),
            decreases n - i,
        {
            assert(text@.skip(i as int).drop_first() =~= text@.skip(i as int + 1));
            i = i + 1;
        }
        let line = &text[start..i];
        proof {
            let s = text@.skip(start as int);
            assert(line_len(text@.skip(i as int)) == 0);
            assert(s.take(i - start) =~= line@);
            let ls = lines(s);
            if i < n {
                assert(s.skip(i - start + 1) =~= text@.skip(i as int + 1));
                assert(ls == seq![line@] + lines(text@.skip(i as int + 1)));
                assert(done + ls =~= done.push(line@) + lines(text@.skip(i as int + 1)));
            } else {
                assert(s =~= line@);
                assert(text@.skip(i as int) =~= Seq::<u8>::empty());
                assert(ls == seq![line@]);
                assert(done + ls =~= done.push(line@) + lines(text@.skip(i as int)));
            }
            assert(done.push(line@).drop_last() =~= done);
        }
        match line_path_of(line) {
            Some(p) => {
                proof {
                    let x = paths_of(done);
                    assert(paths_of(done.push(line@)) == x.push(p@));
                    assert(x.push(p@).drop_last() =~= x);
                }
                push_unique(&mut r, p);
            },
            None => {
                assert(paths_of(done.push(line@)) == paths_of(done));
            },
        }
        proof {
            done = done.push(line@);
        }
        if i < n {
            i = i + 1;
        }
    }
    proof {
        assert(text@.skip(n as int) =~= Seq::<u8>::empty());
        assert(lines(text@) =~= done);
    }
    r
}

} // verus!
