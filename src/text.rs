//! Tokens of a line: runs of characters between Unicode whitespace.
use vstd::prelude::*;

verus! {

/// Unicode `White_Space`, the set that `str::split_whitespace` splits on.
pub open spec fn space_char(c: char) -> bool {
    let u = c as u32;
    ||| 0x09 <= u <= 0x0D
    ||| u == 0x20
    ||| u == 0x85
    ||| u == 0xA0
    ||| u == 0x1680
    ||| 0x2000 <= u <= 0x200A
    ||| u == 0x2028
    ||| u == 0x2029
    ||| u == 0x202F
    ||| u == 0x205F
    ||| u == 0x3000
}

/// The maximal runs of non-space characters of `s`, in order.
pub open spec fn tokens(s: Seq<char>) -> Seq<Seq<char>>
    decreases s.len(),
{
    if s.len() == 0 {
        seq![]
    } else {
        let prev = tokens(s.drop_last());
        let c = s.last();
        if space_char(c) {
            prev
        } else if s.len() >= 2 && !space_char(s[s.len() - 2]) {
            prev.drop_last().push(prev.last().push(c))
        } else {
            prev.push(seq![c])
        }
    }
}

pub fn is_space(c: char) -> (r: bool)
    ensures
        r == space_char(c),
{
    let u = c as u32;
    (0x09 <= u && u <= 0x0D) || u == 0x20 || u == 0x85 || u == 0xA0 || u == 0x1680 || (0x2000
        <= u && u <= 0x200A) || u == 0x2028 || u == 0x2029 || u == 0x202F || u == 0x205F || u
        == 0x3000
}

pub open spec fn views(v: Seq<Vec<char>>) -> Seq<Seq<char>> {
    v.map_values(|t: Vec<char>| t@)
}

/// Splits `line` into its tokens, as character vectors.
pub fn split_tokens(line: &str) -> (r: Vec<Vec<char>>)
    ensures
        views(r@) == tokens(line@),
{
    let mut done: Vec<Vec<char>> = Vec::new();
    let mut cur: Vec<char> = Vec::new();
    for c in it: line.chars()
        invariant
            it.seq() == line@,
            cur@.len() > 0 <==> (it.index() > 0 && !space_char(line@[it.index() - 1])),
            tokens(line@.take(it.index() as int)) == if cur@.len() > 0 {
                views(done@).push(cur@)
            } else {
                views(done@)
            },
    {
        let ghost i = it.index() as int;
        let ghost pre = line@.take(i);
        assert(line@.take(i + 1).drop_last() == pre);
        assert(line@.take(i + 1).last() == c);
        let ghost cur0 = cur@;
        assert(views(done@).push(cur0).drop_last() == views(done@));
        if is_space(c) {
            if cur.len() > 0 {
                let ghost before = done@;
                let ghost t = cur@;
                done.push(cur);
                cur = Vec::new();
                assert(views(done@) == views(before).push(t));
            }
        } else {
            assert(i > 0 ==> line@.take(i + 1)[i - 1] == line@[i - 1]);
            assert(cur0.len() == 0 ==> cur0.push(c) =~= seq![c]);
            cur.push(c);
            assert(tokens(line@.take(i + 1)) =~= views(done@).push(cur@));
        }
    }
    assert(line@.take(line@.len() as int) == line@);
    if cur.len() > 0 {
        let ghost before = done@;
        let ghost t = cur@;
        done.push(cur);
        assert(views(done@) == views(before).push(t));
    }
    done
}

} // verus!
