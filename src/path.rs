//! Normalisation and validation of entry paths.
use vstd::prelude::*;

verus! {

/// The path with every backslash turned into a forward slash.
pub open spec fn forward_slashes(s: Seq<char>) -> Seq<char> {
    Seq::new(s.len(), |i: int| if s[i] == '\\' { '/' } else { s[i] })
}

/// Splits `t` at `/`, dropping empty segments: the finished segments and the
/// segment still being read.
pub open spec fn split_state(t: Seq<char>) -> (Seq<Seq<char>>, Seq<char>)
    decreases t.len(),
{
    if t.len() == 0 {
        (Seq::empty(), Seq::empty())
    } else {
        let (segs, cur) = split_state(t.drop_last());
        let c = t.last();
        if c == '/' {
            if cur.len() == 0 {
                (segs, cur)
            } else {
                (segs.push(cur), Seq::empty())
            }
        } else {
            (segs, cur.push(c))
        }
    }
}

/// The non-empty `/`-separated segments of `t`, in order.
pub open spec fn segments(t: Seq<char>) -> Seq<Seq<char>> {
    let (segs, cur) = split_state(t);
    if cur.len() == 0 {
        segs
    } else {
        segs.push(cur)
    }
}

/// The segments joined with `/`.
pub open spec fn join_segments(segs: Seq<Seq<char>>) -> Seq<char>
    decreases segs.len(),
{
    if segs.len() == 0 {
        Seq::empty()
    } else if segs.len() == 1 {
        segs[0]
    } else {
        join_segments(segs.drop_last()) + seq!['/'] + segs.last()
    }
}

pub open spec fn parent_segment() -> Seq<char> {
    seq!['.', '.']
}

/// The sanitized form of an entry path, or `None` when it is unsafe: absolute,
/// climbing out with `..`, or without any segment.
pub open spec fn sanitized(name: Seq<char>) -> Option<Seq<char>> {
    let t = forward_slashes(name);
    let segs = segments(t);
    if t.len() > 0 && t[0] == '/' {
        None
    } else if segs.contains(parent_segment()) || segs.len() == 0 {
        None
    } else {
        Some(join_segments(segs))
    }
}

proof fn lemma_parent_check(cur: Seq<char>, dots: bool)
    requires
        dots <==> (cur.len() == 2 && cur[0] == '.' && cur[1] == '.'),
    ensures
        dots <==> cur == parent_segment(),
{
    if dots {
        assert(cur =~= parent_segment());
    }
}

proof fn lemma_join_push(segs: Seq<Seq<char>>, seg: Seq<char>)
    ensures
        join_segments(segs.push(seg)) == if segs.len() == 0 {
            seg
        } else {
            join_segments(segs) + seq!['/'] + seg
        },
        segs.push(seg).contains(parent_segment()) <==> (segs.contains(parent_segment()) || seg
            == parent_segment()),
{
    assert(segs.push(seg).drop_last() =~= segs);
    if segs.contains(parent_segment()) {
        let k = choose|k: int| 0 <= k < segs.len() && segs[k] == parent_segment();
        assert(segs.push(seg)[k] == parent_segment());
    }
    if segs.push(seg).contains(parent_segment()) && seg != parent_segment() {
        let k = choose|k: int| 0 <= k < segs.len() + 1 && segs.push(seg)[k] == parent_segment();
        assert(segs[k] == parent_segment());
    }
}

/// Appends the characters of `seg` to `out`, after a `/` when `out` already
/// holds a segment.
fn push_segment(out: &mut String, seg: &String, first: bool)
    requires
        first <==> old(out)@.len() == 0,
    ensures
        final(out)@ == if first {
            seg@
        } else {
            old(out)@ + seq!['/'] + seg@
        },
{
    if !first {
        out.push('/');
    }
    let ghost start = out@;
    let n = seg.as_str().unicode_len();
    let mut i: usize = 0;
    while i < n
        invariant
            n == seg@.len(),
            i <= n,
            out@ == start + seg@.take(i as int),
        decreases n - i,
    {
        let c = seg.as_str().get_char(i);
        out.push(c);
        assert(seg@.take(i as int + 1) == seg@.take(i as int).push(c));
        i = i + 1;
    }
    assert(seg@.take(n as int) == seg@);
}

/// Normalizes an archive entry name to a safe forward-slash path.
///
/// Backslashes become forward slashes; a path that starts with a slash, that
/// holds a `..` segment or that has no segment is refused; empty segments are
/// dropped.
pub fn sanitize_zip_entry_name(name: &str) -> (r: Option<String>)
    ensures
        r matches Some(s) ==> sanitized(name@) == Some(s@),
        r is None ==> sanitized(name@) is None,
{
    let ghost t = forward_slashes(name@);
    let n = name.unicode_len();
    if n > 0 {
        let c0 = name.get_char(0);
        if c0 == '/' || c0 == '\\' {
            return None;
        }
    }
    let mut out = String::new();
    let mut cur = String::new();
    let mut count: usize = 0;
    let mut climbs = false;
    let mut i: usize = 0;
    while i < n
        invariant
            n == name@.len(),
            t == forward_slashes(name@),
            i <= n,
            split_state(t.take(i as int)).0.len() == count,
            split_state(t.take(i as int)).1 == cur@,
            join_segments(split_state(t.take(i as int)).0) == out@,
            count == 0 <==> out@.len() == 0,
            climbs <==> split_state(t.take(i as int)).0.contains(parent_segment()),
            count + cur@.len() <= i,
        decreases n - i,
    {
        let c = name.get_char(i);
        let ghost prev = t.take(i as int);
        assert(t.take(i as int + 1).drop_last() == prev);
        if c == '/' || c == '\\' {
            if cur.as_str().unicode_len() > 0 {
                let dots = cur.as_str().unicode_len() == 2 && cur.as_str().get_char(0) == '.'
                    && cur.as_str().get_char(1) == '.';
                proof {
                    lemma_parent_check(cur@, dots);
                    lemma_join_push(split_state(prev).0, cur@);
                }
                push_segment(&mut out, &cur, count == 0);
                climbs = climbs || dots;
                count = count + 1;
                cur = String::new();
            }
        } else {
            cur.push(c);
        }
        i = i + 1;
    }
    assert(t.take(n as int) == t);
    if cur.as_str().unicode_len() > 0 {
        let dots = cur.as_str().unicode_len() == 2 && cur.as_str().get_char(0) == '.'
            && cur.as_str().get_char(1) == '.';
        proof {
            lemma_parent_check(cur@, dots);
            lemma_join_push(split_state(t).0, cur@);
        }
        push_segment(&mut out, &cur, count == 0);
        climbs = climbs || dots;
        count = count + 1;
    }
    if climbs || count == 0 {
        None
    } else {
        Some(out)
    }
}

} // verus!
