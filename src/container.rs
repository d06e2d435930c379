use vstd::prelude::*;
use crate::error::ResolveError;
use crate::text::views;

verus! {

/// What the run needs of a container's metadata: the id of its primary
/// process, when one is reported, and the colon-separated list of overlay
/// lower directories that its storage driver names, when it names one.
#[derive(Debug)]
pub struct ContainerInfo {
    pub pid: Option<i64>,
    pub lower_dir: Option<Vec<u8>>,
}

/// The length of the part of `s` before its first colon.
pub open spec fn colon_len(s: Seq<u8>) -> nat
    decreases s.len(),
{
    if s.len() == 0 || s[0] == 58 {
        0
    } else {
        1 + colon_len(s.drop_first())
    }
}

/// The colon-separated pieces of `s`, empty pieces included: a string
/// without a colon is one piece, the empty string too.
pub open spec fn colon_pieces(s: Seq<u8>) -> Seq<Seq<u8>>
    decreases s.len(),
{
    let k = colon_len(s);
    if k >= s.len() {
        seq![s]
    } else {
        seq![s.take(k as int)] + colon_pieces(s.skip(k as int + 1))
    }
}

/// The lower directories that `info` names, in order.
pub open spec fn lower_dirs_of(info: ContainerInfo) -> Seq<Seq<u8>> {
    match info.lower_dir {
        Some(s) => colon_pieces(s@),
        None => Seq::empty(),
    }
}

/// The index of the first `true` in `flags`, or its length if none is.
pub open spec fn first_true(flags: Seq<bool>) -> nat
    decreases flags.len(),
{
    if flags.len() == 0 || flags[0] {
        0
    } else {
        1 + first_true(flags.drop_first())
    }
}

/// The host path of `path`: `dirs[i] + path` for the first `i` at which
/// `exists` holds, else `path` itself.
pub open spec fn host_path(path: Seq<u8>, dirs: Seq<Seq<u8>>, exists: Seq<bool>) -> Seq<u8> {
    let k = first_true(exists);
    if k < exists.len() && k < dirs.len() {
        dirs[k as int] + path
    } else {
        path
    }
}

/// The process id that the container reports, or -1 where it reports none.
pub fn parse_container_pid(info: &ContainerInfo) -> (r: i64)
    ensures
        r == match info.pid {
            Some(p) => p as int,
            None => -1,
        },
{
    match info.pid {
        Some(p) => p,
        None => -1,
    }
}

/// The container's primary process id, which must be positive.
pub fn container_pid(info: &ContainerInfo) -> (r: Result<usize, ResolveError>)
    ensures
        match info.pid {
            Some(p) if p > 0 && p as int <= usize::MAX as int => r == Ok::<usize, ResolveError>(p as usize),
            _ => r == Err::<usize, ResolveError>(ResolveError::ContainerPidUnavailable),
        },
{
    let pid = parse_container_pid(info);
    if pid <= 0 || pid as u64 > usize::MAX as u64 {
        Err(ResolveError::ContainerPidUnavailable)
    } else {
        Ok(pid as usize)
    }
}

/// Appends to `dirs` the lower directories that `info` names, in order.
pub fn parse_container_lower_dirs(info: &ContainerInfo, dirs: &mut Vec<Vec<u8>>)
    ensures
        views(final(dirs)@) == views(old(dirs)@) + lower_dirs_of(*info),
{
    match &info.lower_dir {
        Some(s) => {
            let n = s.len();
            let mut i: usize = 0;
            let ghost base = views(dirs@);
            let ghost mut done: Seq<Seq<u8>> = Seq::empty();
            assert(s@.skip(0) =~= s@);
            assert(views(dirs@) =~= base + done);
            loop
                invariant_except_break
                    colon_pieces(s@) == done + colon_pieces(s@.skip(i as int)),
                invariant
                    n == s@.len(),
                    i <= n,
                    views(dirs@) == base + done,
                ensures
                    colon_pieces(s@) == done,
                decreases n - i,
            {
                let start = i;
                while i < n && s[i] != 58
                    invariant
                        n == s@.len(),
                        start <= i <= n,
                        colon_len(s@.skip(start as int)) == (i - start) + colon_len(
                            s@.skip(i as int),
                        ),
                    decreases n - i,
                {
                    assert(s@.skip(i as int).drop_first() =~= s@.skip(i as int + 1));
                    i = i + 1;
                }
                let piece = crate::text::copy_bytes(&s.as_slice()[start..i]);
                proof {
                    let t = s@.skip(start as int);
                    assert(colon_len(s@.skip(i as int)) == 0);
                    if i < n {
                        assert(t.take(i - start) =~= piece@);
                        assert(t.skip(i - start + 1) =~= s@.skip(i as int + 1));
                        assert(colon_pieces(t) == seq![piece@] + colon_pieces(s@.skip(i as int + 1)));
                        assert(done + colon_pieces(t) =~= done.push(piece@) + colon_pieces(
                            s@.skip(i as int + 1),
                        ));
                    } else {
                        assert(t =~= piece@);
                        assert(colon_pieces(t) == seq![piece@]);
                        assert(done + colon_pieces(t) =~= done.push(piece@));
                    }
                }
                let ghost prev = dirs@;
                dirs.push(piece);
                proof {
                    assert(views(dirs@) =~= views(prev).push(piece@));
                    done = done.push(piece@);
                    assert(views(dirs@) =~= base + done);
                }
                if i >= n {
                    break;
                }
                i = i + 1;
            }
            assert(colon_pieces(s@) =~= done);
        },
        None => {
            assert(views(dirs@) =~= views(old(dirs)@) + lower_dirs_of(*info));
        },
    }
}

/// The concatenation of two byte strings.
pub fn join_bytes(a: &[u8], b: &[u8]) -> (r: Vec<u8>)
    ensures
        r@ == a@ + b@,
{
    let mut r = crate::text::copy_bytes(a);
    let mut i: usize = 0;
    while i < b.len()
        invariant
            i <= b.len(),
            r@ == a@ + b@.subrange(0, i as int),
        decreases b.len() - i,
    {
        r.push(b[i]);
        i = i + 1;
        assert(r@ =~= a@ + b@.subrange(0, i as int));
    }
    assert(b@.subrange(0, b.len() as int) =~= b@);
    r
}

/// The host paths at which `path`, seen inside the container, may be found:
/// each lower directory followed by `path`, in the order of `dirs`.
pub fn candidate_paths(path: &[u8], dirs: &Vec<Vec<u8>>) -> (r: Vec<Vec<u8>>)
    ensures
        r@.len() == dirs@.len(),
        forall|i: int| 0 <= i < dirs@.len() ==> (#[trigger] r@[i])@ == dirs@[i]@ + path@,
{
    let mut r: Vec<Vec<u8>> = Vec::new();
    let mut i: usize = 0;
    while i < dirs.len()
        invariant
            i <= dirs@.len(),
            r@.len() == i,
            forall|j: int| 0 <= j < i ==> (#[trigger] r@[j])@ == dirs@[j]@ + path@,
        decreases dirs@.len() - i,
    {
        r.push(join_bytes(dirs[i].as_slice(), path));
        i = i + 1;
    }
    r
}

/// Rewrites `path` to its host path: the first of the candidates of
/// `candidate_paths(path, dirs)` that exists (as `exists` says, one flag per
/// lower directory), else `path` unchanged. A later match is never preferred.
pub fn resolve_host_path(path: &[u8], dirs: &Vec<Vec<u8>>, exists: &Vec<bool>) -> (r: Vec<u8>)
    requires
        exists@.len() == dirs@.len(),
    ensures
        r@ == host_path(path@, views(dirs@), exists@),
{
    let mut i: usize = 0;
    assert(exists@.skip(0) =~= exists@);
    while i < exists.len()
        invariant
            i <= exists@.len(),
            exists@.len() == dirs@.len(),
            first_true(exists@) == i + first_true(exists@.skip(i as int)),
        decreases exists@.len() - i,
    {
        if exists[i] {
            assert(first_true(exists@.skip(i as int)) == 0);
            assert(views(dirs@)[i as int] == dirs@[i as int]@);
            return join_bytes(dirs[i].as_slice(), path);
        }
        assert(exists@.skip(i as int).drop_first() =~= exists@.skip(i as int + 1));
        i = i + 1;
    }
    assert(exists@.skip(i as int) =~= Seq::<bool>::empty());
    crate::text::copy_bytes(path)
}

} // verus!
