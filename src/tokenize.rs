//! Splitting a path into its terms.
use vstd::prelude::*;

verus! {

/// The separator between the segments of a path.
pub open spec fn is_separator(c: char) -> bool {
    c == '/'
}

/// The segments of `s` between separators, empty ones included; a string
/// without a separator is a single segment.
pub open spec fn split_slash(s: Seq<char>) -> Seq<Seq<char>>
    decreases s.len(),
{
    if s.len() == 0 {
        seq![Seq::<char>::empty()]
    } else {
        let r = split_slash(s.drop_last());
        if is_separator(s.last()) {
            r.push(Seq::<char>::empty())
        } else {
            r.update(r.len() - 1, r.last().push(s.last()))
        }
    }
}

/// Splits `path` on `/` into its terms, in order.
pub fn split_path(path: &str) -> (r: Vec<String>)
    ensures
        r@.map_values(|t: String| t@) == split_slash(path@),
{
    let n = path.unicode_len();
    let mut out: Vec<String> = Vec::new();
    let mut start: usize = 0;
    let mut i: usize = 0;
    proof {
        assert(path@.take(0) =~= Seq::<char>::empty());
        assert(path@.subrange(0, 0) =~= Seq::<char>::empty());
        assert(out@.map_values(|t: String| t@).push(Seq::<char>::empty()) =~= seq![
            Seq::<char>::empty(),
        ]);
    }
    while i < n
        invariant
            n == path@.len(),
            start <= i <= n,
            split_slash(path@.take(i as int)) == out@.map_values(|t: String| t@).push(
                path@.subrange(start as int, i as int),
            ),
        decreases n - i,
    {
        let c = path.get_char(i);
        proof {
            assert(path@.take(i + 1).drop_last() =~= path@.take(i as int));
            assert(path@.take(i + 1).last() == c);
        }
        if c == '/' {
            let seg = path.substring_char(start, i).to_owned();
            proof {
                assert(path@.subrange(i + 1, i + 1) =~= Seq::<char>::empty());
                assert(out@.push(seg).map_values(|t: String| t@) =~= out@.map_values(
                    |t: String| t@,
                ).push(seg@));
            }
            out.push(seg);
            start = i + 1;
        } else {
            proof {
                let r = split_slash(path@.take(i as int));
                assert(r.len() - 1 == out@.len());
                assert(path@.subrange(start as int, i as int).push(c) =~= path@.subrange(
                    start as int,
                    i + 1,
                ));
                assert(r.update(r.len() - 1, r.last().push(c)) =~= out@.map_values(
                    |t: String| t@,
                ).push(path@.subrange(start as int, i + 1)));
            }
        }
        i = i + 1;
    }
    let seg = path.substring_char(start, n).to_owned();
    proof {
        assert(path@.take(n as int) =~= path@);
        assert(out@.push(seg).map_values(|t: String| t@) =~= out@.map_values(|t: String| t@).push(
            seg@,
        ));
    }
    out.push(seg);
    out
}

} // verus!
