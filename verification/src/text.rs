//! Dotted-path handling and small text helpers.
use vstd::prelude::*;

verus! {

/// `s` holds no path separator.
pub open spec fn dot_free(s: Seq<char>) -> bool {
    forall|i: int| 0 <= i < s.len() ==> s[i] != '.'
}

/// The path text a segment list denotes: the segments joined with `'.'`.
pub open spec fn join_dots(segs: Seq<Seq<char>>) -> Seq<char>
    decreases segs.len(),
{
    if segs.len() == 0 {
        Seq::empty()
    } else if segs.len() == 1 {
        segs[0]
    } else {
        segs[0] + seq!['.'] + join_dots(segs.drop_first())
    }
}

proof fn lemma_join_push(segs: Seq<Seq<char>>, x: Seq<char>)
    requires
        segs.len() >= 1,
    ensures
        join_dots(segs.push(x)) =~= join_dots(segs) + seq!['.'] + x,
    decreases segs.len(),
{
    if segs.len() == 1 {
        assert(segs.push(x).drop_first() =~= seq![x]);
        assert(join_dots(seq![x]) == x);
    } else {
        assert(segs.push(x).drop_first() =~= segs.drop_first().push(x));
        lemma_join_push(segs.drop_first(), x);
        assert(segs.push(x)[0] == segs[0]);
    }
}

/// Relies on String::push: appends exactly the one character.
#[verifier::external_body]
pub fn push_char(s: &mut String, c: char)
    ensures
        final(s)@ == old(s)@.push(c),
{
    s.push(c)
}

/// The mathematical values of a sequence of strings.
pub open spec fn views_of(ss: Seq<String>) -> Seq<Seq<char>> {
    ss.map_values(|s: String| s@)
}

/// Split a dotted path into its segments. Splitting is exact: the segments
/// are dot-free and joined with `'.'` they give back the input, which pins
/// the decomposition uniquely. An empty path gives one empty segment.
pub fn parse_path(path: &str) -> (segs: Vec<String>)
    ensures
        segs@.len() >= 1,
        join_dots(segs@.map_values(|s: String| s@)) == path@,
        forall|i: int| 0 <= i < segs@.len() ==> dot_free(#[trigger] segs@[i]@),
{
    let n = path.unicode_len();
    let mut segs: Vec<String> = Vec::new();
    let mut cur: String = String::new();
    let mut i: usize = 0;
    while i < n
        invariant
            n == path@.len(),
            i <= n,
            dot_free(cur@),
            forall|t: int| 0 <= t < segs@.len() ==> dot_free(#[trigger] segs@[t]@),
            join_dots(segs@.map_values(|s: String| s@).push(cur@)) =~= path@.subrange(
                0,
                i as int,
            ),
        decreases n - i,
    {
        let c = path.get_char(i);
        let ghost done = segs@.map_values(|s: String| s@);
        let ghost pre = path@.subrange(0, i as int);
        if c == '.' {
            let ghost curv = cur@;
            segs.push(cur);
            cur = String::new();
            proof {
                assert(segs@.map_values(|s: String| s@) =~= done.push(curv));
                lemma_join_push(done.push(curv), Seq::empty());
                assert(join_dots(done.push(curv).push(Seq::empty())) =~= pre + seq!['.']);
                assert(pre + seq!['.'] =~= path@.subrange(0, i as int + 1));
            }
        } else {
            let ghost curv = cur@;
            push_char(&mut cur, c);
            proof {
                if done.len() == 0 {
                    assert(join_dots(done.push(curv)) == curv);
                    assert(join_dots(done.push(cur@)) == cur@);
                } else {
                    lemma_join_push(done, curv);
                    lemma_join_push(done, cur@);
                }
                assert(join_dots(done.push(cur@)) =~= path@.subrange(0, i as int + 1));
                assert forall|t: int| 0 <= t < cur@.len() implies cur@[t] != '.' by {
                    if t < curv.len() {
                        assert(curv[t] != '.');
                    }
                }
            }
        }
        i += 1;
    }
    let ghost done = segs@.map_values(|s: String| s@);
    let ghost curv = cur@;
    segs.push(cur);
    proof {
        assert(path@.subrange(0, n as int) =~= path@);
        assert(segs@.map_values(|s: String| s@) =~= done.push(curv));
    }
    segs
}

} // verus!
