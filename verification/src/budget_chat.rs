//! Chat-room bookkeeping: member names and the roster line shown to a
//! newcomer.

use vstd::prelude::*;
use vstd::string::StrSliceExecFns;
use vstd::string::StringExecFns;
use crate::text::char_alphanumeric;
use crate::text::char_whitespace;

verus! {

/// A chat line attributed to its sender.
#[derive(Clone, Debug)]
pub struct Message {
    pub sender_id: usize,
    pub contents: String,
}

/// A joined member.
#[derive(Eq, Hash, PartialEq, Clone)]
pub struct Member {
    pub id: usize,
    pub name: String,
}

/// Index of the first character that is not whitespace, or the length when
/// all of them are.
pub open spec fn first_non_ws(s: Seq<char>) -> int
    decreases s.len(),
{
    if s.len() == 0 {
        0
    } else if !char_whitespace(s[0]) {
        0
    } else {
        1 + first_non_ws(s.skip(1))
    }
}

/// Index of the last character that is not whitespace, or -1 when all of
/// them are.
pub open spec fn last_non_ws(s: Seq<char>) -> int
    decreases s.len(),
{
    if s.len() == 0 {
        -1
    } else if !char_whitespace(s.last()) {
        s.len() - 1
    } else {
        last_non_ws(s.drop_last())
    }
}

/// A name is valid when, after trimming surrounding whitespace, something
/// is left and all of it is alphanumeric.
pub open spec fn valid_name(s: Seq<char>) -> bool {
    &&& first_non_ws(s) < s.len()
    &&& forall|k: int|
        first_non_ws(s) <= k <= last_non_ws(s) ==> char_alphanumeric(#[trigger] s[k])
}

/// The names of the members joined with a comma and a space.
pub open spec fn names_join(ms: Seq<Member>) -> Seq<char>
    decreases ms.len(),
{
    if ms.len() == 0 {
        Seq::empty()
    } else if ms.len() == 1 {
        ms[0].name@
    } else {
        names_join(ms.drop_last()) + ", "@ + ms.last().name@
    }
}

/// A character that is not whitespace bounds the trimmed region.
proof fn lemma_last_ge(s: Seq<char>, i: int)
    requires
        0 <= i < s.len(),
        !char_whitespace(s[i]),
    ensures
        last_non_ws(s) >= i,
    decreases s.len(),
{
    if char_whitespace(s.last()) {
        assert(s.drop_last()[i] == s[i]);
        lemma_last_ge(s.drop_last(), i);
    }
}

/// Check a proposed member name.
pub fn is_valid_name(name: &str) -> (r: bool)
    ensures
        r == valid_name(name@),
{
    let n = name.unicode_len();
    // collect the characters once; the string may not be ASCII
    let mut chars: Vec<char> = Vec::new();
    let mut i: usize = 0;
    while i < n
        invariant
            i <= n,
            n == name@.len(),
            chars@.len() == i,
            forall|k: int| 0 <= k < i ==> chars@[k] == name@[k],
        decreases n - i,
    {
        let c = name.get_char(i);
        chars.push(c);
        i = i + 1;
    }
    proof {
        assert(chars@ =~= name@);
    }
    // find the first character that is not whitespace
    proof {
        assert(name@.subrange(0, n as int) =~= name@);
    }
    let mut first: usize = 0;
    while first < n && chars[first].is_whitespace()
        invariant
            first <= n,
            n == chars@.len(),
            chars@ == name@,
            first_non_ws(name@) == first + first_non_ws(name@.subrange(first as int, n as int)),
        decreases n - first,
    {
        proof {
            let rest = name@.subrange(first as int, n as int);
            assert(rest[0] == name@[first as int]);
            assert(rest.skip(1) =~= name@.subrange((first + 1) as int, n as int));
        }
        first = first + 1;
    }
    proof {
        let rest = name@.subrange(first as int, n as int);
        if first < n {
            assert(rest[0] == name@[first as int]);
            assert(first_non_ws(rest) == 0);
        } else {
            assert(rest =~= Seq::<char>::empty());
        }
        assert(first_non_ws(name@) == first);
    }
    if first >= n {
        return false;
    }
    // find the last character that is not whitespace
    proof {
        assert(name@.subrange(0, n as int) =~= name@);
    }
    let mut lastp: usize = n;
    while lastp > 0 && chars[lastp - 1].is_whitespace()
        invariant
            lastp <= n,
            n == chars@.len(),
            chars@ == name@,
            last_non_ws(name@) == last_non_ws(name@.subrange(0, lastp as int)),
        decreases lastp,
    {
        proof {
            let pre = name@.subrange(0, lastp as int);
            assert(pre.last() == name@[lastp - 1]);
            assert(pre.drop_last() =~= name@.subrange(0, (lastp - 1) as int));
        }
        lastp = lastp - 1;
    }
    proof {
        let pre = name@.subrange(0, lastp as int);
        if lastp > 0 {
            assert(pre.last() == name@[lastp - 1]);
            assert(last_non_ws(pre) == lastp - 1);
        } else {
            assert(pre =~= Seq::<char>::empty());
        }
        assert(last_non_ws(name@) == lastp - 1);
    }
    // every character of the trimmed region must be alphanumeric
    proof {
        lemma_last_ge(name@, first as int);
    }
    let mut k: usize = first;
    while k < lastp
        invariant
            first <= k <= lastp <= n,
            n == chars@.len(),
            chars@ == name@,
            first_non_ws(name@) == first,
            last_non_ws(name@) == lastp - 1,
            first < n,
            forall|j: int| first <= j < k ==> char_alphanumeric(#[trigger] name@[j]),
        decreases lastp - k,
    {
        if !chars[k].is_alphanumeric() {
            proof {
                assert(!char_alphanumeric(name@[k as int]));
            }
            return false;
        }
        k = k + 1;
    }
    true
}

/// The roster line shown to a newcomer: a fixed banner followed by the
/// members' names, comma separated, in table order.
pub fn format_names(members: &Vec<Member>) -> (r: String)
    ensures
        r@ == "* The room contains: "@ + names_join(members@),
{
    let mut out = String::from_str("* The room contains: ");
    let n = members.len();
    proof {
        assert(names_join(members@.subrange(0, 0)) =~= Seq::<char>::empty());
        assert(out@ + Seq::<char>::empty() =~= out@);
    }
    let ghost banner = out@;
    let mut i: usize = 0;
    while i < n
        invariant
            i <= n,
            n == members@.len(),
            banner == "* The room contains: "@,
            out@ == banner + names_join(members@.subrange(0, i as int)),
        decreases n - i,
    {
        proof {
            let pre = members@.subrange(0, i as int);
            let cur = members@.subrange(0, (i + 1) as int);
            assert(cur.drop_last() =~= pre);
            assert(cur.last() == members@[i as int]);
            assert(cur[0] == members@[0]);
            if i == 0 {
                assert(names_join(cur) == members@[0].name@);
            } else {
                assert(names_join(cur) == names_join(pre) + ", "@ + members@[i as int].name@);
            }
        }
        if i > 0 {
            out.append(", ");
        }
        out.append(members[i].name.as_str());
        proof {
            let pre = members@.subrange(0, i as int);
            assert((banner + names_join(pre) + ", "@) + members@[i as int].name@
                =~= banner + (names_join(pre) + ", "@ + members@[i as int].name@));
            assert((banner + names_join(pre)) + members@[i as int].name@
                =~= banner + (names_join(pre) + members@[i as int].name@));
            if i == 0 {
                assert(names_join(pre) =~= Seq::<char>::empty());
                assert(names_join(pre) + members@[0].name@ =~= members@[0].name@);
            }
        }
        i = i + 1;
    }
    proof {
        assert(members@.subrange(0, n as int) =~= members@);
    }
    out
}

} // verus!
