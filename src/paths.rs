//! Joining request paths onto a base directory.
use vstd::prelude::*;
use crate::text::same_text;

verus! {

/// A path segment that is not a plain name: empty, `.` or `..`.
pub open spec fn dropped_segment(seg: Seq<char>) -> bool {
    seg.len() == 0 || seg == seq!['.'] || seg == seq!['.', '.']
}

/// `out` with the segment appended as a path component, unless dropped.
pub open spec fn push_segment(out: Seq<char>, seg: Seq<char>) -> Seq<char> {
    if dropped_segment(seg) {
        out
    } else if out.len() == 0 || out.last() == '/' {
        out + seg
    } else {
        out.push('/') + seg
    }
}

/// Where the segment that the first `n` characters of `path` end in starts.
pub open spec fn seg_start(path: Seq<char>, n: nat) -> nat
    decreases n,
{
    if n == 0 {
        0
    } else if path[n - 1] == '/' {
        n
    } else {
        seg_start(path, (n - 1) as nat)
    }
}

/// `base` with every segment that ends within the first `n` characters of
/// `path` appended.
pub open spec fn walked(base: Seq<char>, path: Seq<char>, n: nat) -> Seq<char>
    decreases n,
{
    if n == 0 {
        base
    } else if path[n - 1] == '/' {
        push_segment(walked(base, path, (n - 1) as nat), path.subrange(seg_start(path, (n - 1) as nat) as int, n - 1))
    } else {
        walked(base, path, (n - 1) as nat)
    }
}

/// `base` with the plain-name segments of `path` appended in order.
pub open spec fn joined(base: Seq<char>, path: Seq<char>) -> Seq<char> {
    push_segment(walked(base, path, path.len()), path.subrange(seg_start(path, path.len()) as int, path.len() as int))
}

fn push_segment_exec(out: &mut String, seg: &str)
    ensures
        final(out)@ == push_segment(old(out)@, seg@),
{
    proof {
        reveal_strlit(".");
        reveal_strlit("..");
        reveal_strlit("/");
        assert("."@ =~= seq!['.']);
        assert(".."@ =~= seq!['.', '.']);
    }
    if seg.unicode_len() == 0 || same_text(seg, ".") || same_text(seg, "..") {
        return;
    }
    let n = out.as_str().unicode_len();
    if n > 0 && out.as_str().get_char(n - 1) != '/' {
        out.append("/");
        assert("/"@ =~= seq!['/']);
    }
    out.append(seg);
}

/// Joins `path` onto `base`, keeping only its plain names: empty segments,
/// `.` and `..` are dropped, and so is a leading `/`.
pub fn join_normalized(base: &str, path: &str) -> (r: String)
    ensures
        r@ == joined(base@, path@),
{
    let n = path.unicode_len();
    let mut out = base.to_owned();
    let mut start: usize = 0;
    let mut i: usize = 0;
    while i < n
        invariant
            n == path@.len(),
            i <= n,
            start == seg_start(path@, i as nat),
            start <= i,
            out@ == walked(base@, path@, i as nat),
        decreases n - i,
    {
        if path.get_char(i) == '/' {
            let seg = path.substring_char(start, i);
            push_segment_exec(&mut out, seg);
            start = i + 1;
        }
        i = i + 1;
    }
    let seg = path.substring_char(start, n);
    push_segment_exec(&mut out, seg);
    out
}

} // verus!
