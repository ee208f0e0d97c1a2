//! The control sockets of the media player instances this program starts.
use vstd::prelude::*;
use crate::text::{
    all_digits, chars_of, decimal, digits_value, ends_with, in_class, lemma_decimal_digits,
    lemma_run_len_members, occurs_at_exec, parse_u32_digits, run_end, run_len, starts_with,
    CharClass,
};

verus! {

broadcast use vstd::string::group_string_axioms;

/// The position of the last `/` in `p`, or -1 when there is none.
pub open spec fn last_slash(p: Seq<char>) -> int
    decreases p.len(),
{
    if p.len() == 0 {
        -1
    } else if p.last() == '/' {
        p.len() - 1
    } else {
        last_slash(p.drop_last())
    }
}

/// The last component of a path: what follows its last `/`.
pub open spec fn file_name_of(p: Seq<char>) -> Seq<char> {
    p.skip(last_slash(p) + 1)
}

/// The process id in a socket name of ours, `trovers-<pid>-<n>.sock` with
/// `<pid>` and `<n>` decimal numbers, when `<pid>` fits in a `u32`.
pub open spec fn socket_pid(name: Seq<char>) -> Option<nat> {
    let mid = name.subrange(8, name.len() - 5);
    let d = run_len(mid, 0, CharClass::Digit);
    if name.len() >= 13 && starts_with(name, "trovers-"@) && ends_with(name, ".sock"@) && d > 0
        && d + 1 < mid.len() && mid[d as int] == '-' && all_digits(mid.skip(d as int + 1))
        && digits_value(mid.take(d as int)) <= u32::MAX {
        Some(digits_value(mid.take(d as int)))
    } else {
        None
    }
}

/// `last_slash` read off a scan from the end.
proof fn lemma_last_slash(p: Seq<char>, j: int)
    requires
        0 <= j <= p.len(),
        forall|k: int| j <= k < p.len() ==> #[trigger] p[k] != '/',
        j > 0 ==> p[j - 1] == '/',
    ensures
        last_slash(p) == j - 1,
    decreases p.len() - j,
{
    if j < p.len() {
        let q = p.drop_last();
        assert forall|k: int| j <= k < q.len() implies #[trigger] q[k] != '/' by {
            assert(q[k] == p[k]);
        }
        if j > 0 {
            assert(q[j - 1] == p[j - 1]);
        }
        lemma_last_slash(q, j);
    }
}

/// The process that owns one of our player sockets, read off the socket's
/// path (`…/trovers-<pid>-<n>.sock`); `None` for any other file.
pub fn socket_owner_pid(path: &str) -> (pid: Option<u32>)
    ensures
        pid matches Some(x) ==> socket_pid(file_name_of(path@)) == Some(x as nat),
        pid is None <==> socket_pid(file_name_of(path@)) is None,
{
    let p = chars_of(path);
    let mut j = p.len();
    while j > 0 && p[j - 1] != '/'
        invariant
            j <= p.len(),
            forall|k: int| j <= k < p.len() ==> #[trigger] p@[k] != '/',
        decreases j,
    {
        j = j - 1;
    }
    proof {
        lemma_last_slash(p@, j as int);
    }
    let mut name: Vec<char> = Vec::new();
    let mut i = j;
    while i < p.len()
        invariant
            j <= i <= p.len(),
            name@ == p@.subrange(j as int, i as int),
        decreases p.len() - i,
    {
        name.push(p[i]);
        i = i + 1;
        assert(name@ =~= p@.subrange(j as int, i as int));
    }
    assert(name@ =~= file_name_of(path@));
    let ghost mid = name@.subrange(8, name@.len() - 5);
    proof {
        reveal_strlit("trovers-");
        reveal_strlit(".sock");
    }
    if name.len() < 13 || !occurs_at_exec(&name, &chars_of("trovers-"), 0) || !occurs_at_exec(
        &name,
        &chars_of(".sock"),
        name.len() - 5,
    ) {
        return None;
    }
    let end = name.len() - 5;
    let d = run_end(&name, 8, &CharClass::Digit);
    let d_end = if d < end { d } else { end };
    proof {
        reveal_strlit("trovers-");
        reveal_strlit(".sock");
        assert(name@.subrange(name@.len() - 5, name@.len() as int)[0] == name@[name@.len() - 5]);
        assert(name@[end as int] == '.');
        assert(d <= end);
        lemma_run_len_members(mid, 0, CharClass::Digit);
        lemma_run_len_skip_sub(name@, 8, end as int, d as int);
    }
    if d == 8 || d + 1 >= end || name[d] != '-' {
        return None;
    }
    let s = run_end(&name, d + 1, &CharClass::Digit);
    if s < end {
        proof {
            assert(mid.skip(d - 8 + 1)[s - d - 1] == name@[s as int]);
        }
        return None;
    }
    proof {
        let tail = mid.skip(d - 8 + 1);
        assert forall|k: int| 0 <= k < tail.len() implies crate::text::is_ascii_digit(
            #[trigger] tail[k],
        ) by {
            assert(tail[k] == name@[d + 1 + k]);
            assert(in_class(name@[d + 1 + k], CharClass::Digit));
        }
        assert(mid.take(d - 8) =~= name@.subrange(8, d as int));
        assert forall|k: int| 0 <= k < d - 8 implies crate::text::is_ascii_digit(
            #[trigger] name@.subrange(8, d as int)[k],
        ) by {
            assert(name@.subrange(8, d as int)[k] == name@[8 + k]);
            assert(in_class(name@[8 + k], CharClass::Digit));
        }
    }
    parse_u32_digits(&name, 8, d)
}

/// A run measured inside `s[lo..hi]` from its start, when the same run in `s`
/// ends at or before `hi`.
proof fn lemma_run_len_skip_sub(s: Seq<char>, lo: int, hi: int, r: int)
    requires
        0 <= lo <= r <= hi <= s.len(),
        forall|k: int| lo <= k < r ==> in_class(#[trigger] s[k], CharClass::Digit),
        r < hi ==> !in_class(s[r], CharClass::Digit),
    ensures
        run_len(s.subrange(lo, hi), 0, CharClass::Digit) == r - lo,
{
    let m = s.subrange(lo, hi);
    assert forall|k: int| 0 <= k < r - lo implies in_class(#[trigger] m[k], CharClass::Digit) by {
        assert(m[k] == s[lo + k]);
    }
    if r < hi {
        assert(m[r - lo] == s[r]);
    }
    crate::text::lemma_run_len(m, 0, r - lo, CharClass::Digit);
}


/// The name of the control socket of player instance `n` of process `pid`.
pub open spec fn socket_name(pid: nat, n: nat) -> Seq<char> {
    "trovers-"@ + decimal(pid) + seq!['-'] + decimal(n) + ".sock"@
}

/// The socket names this program gives its players parse back to the process
/// that owns them, wherever they lie.
pub proof fn law_socket_name_round_trip(dir: Seq<char>, pid: nat, n: nat)
    requires
        pid <= u32::MAX,
    ensures
        socket_pid(file_name_of(dir + seq!['/'] + socket_name(pid, n))) == Some(pid),
{
    reveal_strlit("trovers-");
    reveal_strlit(".sock");
    let d1 = decimal(pid);
    let d2 = decimal(n);
    lemma_decimal_digits(pid);
    lemma_decimal_digits(n);
    let name = socket_name(pid, n);
    let path = dir + seq!['/'] + name;
    assert forall|k: int| 0 <= k < name.len() implies #[trigger] name[k] != '/' by {
        if 8 <= k < 8 + d1.len() {
            assert(name[k] == d1[k - 8]);
        } else if 8 + d1.len() + 1 <= k < 8 + d1.len() + 1 + d2.len() {
            assert(name[k] == d2[k - 8 - d1.len() - 1]);
        }
    }
    assert forall|k: int| dir.len() + 1 <= k < path.len() implies #[trigger] path[k] != '/' by {
        assert(path[k] == name[k - dir.len() - 1]);
    }
    lemma_last_slash(path, dir.len() + 1int);
    assert(file_name_of(path) =~= name);
    let mid = name.subrange(8, name.len() - 5);
    assert(mid =~= d1 + seq!['-'] + d2);
    assert forall|k: int| 0 <= k < d1.len() implies in_class(#[trigger] mid[k], CharClass::Digit) by {
        assert(mid[k] == d1[k]);
    }
    assert(mid[d1.len() as int] == '-');
    crate::text::lemma_run_len(mid, 0, d1.len() as int, CharClass::Digit);
    assert(mid.take(d1.len() as int) =~= d1);
    assert(mid.skip(d1.len() as int + 1) =~= d2);
    assert(name.subrange(0, 8) =~= "trovers-"@);
    assert(name.subrange(name.len() - 5, name.len() as int) =~= ".sock"@);
}

} // verus!
