use vstd::prelude::*;
use vstd::string::*;

use crate::index::strings_view;

verus! {

/// Unicode white space, as `char::is_whitespace` defines it.
pub open spec fn is_space(c: char) -> bool {
    let v = c as u32;
    (0x09 <= v <= 0x0d) || v == 0x20 || v == 0x85 || v == 0xa0 || v == 0x1680 || (0x2000 <= v
        <= 0x200a) || v == 0x2028 || v == 0x2029 || v == 0x202f || v == 0x205f || v == 0x3000
}

/// The text with its leading white space taken off.
pub open spec fn trim_start(s: Seq<char>) -> Seq<char>
    decreases s.len(),
{
    if s.len() > 0 && is_space(s[0]) {
        trim_start(s.drop_first())
    } else {
        s
    }
}

/// The text with its trailing white space taken off.
pub open spec fn trim_end(s: Seq<char>) -> Seq<char>
    decreases s.len(),
{
    if s.len() > 0 && is_space(s.last()) {
        trim_end(s.drop_last())
    } else {
        s
    }
}

/// The text with surrounding white space taken off.
pub open spec fn trimmed(s: Seq<char>) -> Seq<char> {
    trim_end(trim_start(s))
}

fn space(c: char) -> (r: bool)
    ensures
        r == is_space(c),
{
    let v = c as u32;
    (0x09 <= v && v <= 0x0d) || v == 0x20 || v == 0x85 || v == 0xa0 || v == 0x1680 || (0x2000
        <= v && v <= 0x200a) || v == 0x2028 || v == 0x2029 || v == 0x202f || v == 0x205f || v
        == 0x3000
}

/// Takes surrounding white space off an operator's answer.
pub fn trim(s: &str) -> (r: &str)
    ensures
        r@ == trimmed(s@),
{
    let n = s.unicode_len();
    let mut a: usize = 0;
    assert(s@.subrange(0, n as int) =~= s@);
    while a < n && space(s.get_char(a))
        invariant
            a <= n,
            n == s@.len(),
            trim_start(s@) == trim_start(s@.subrange(a as int, n as int)),
        decreases n - a,
    {
        assert(s@.subrange(a as int, n as int).drop_first() =~= s@.subrange(a + 1, n as int));
        a = a + 1;
    }
    assert(trim_start(s@) == s@.subrange(a as int, n as int));
    let mut b: usize = n;
    while b > a && space(s.get_char(b - 1))
        invariant
            a <= b <= n,
            n == s@.len(),
            trimmed(s@) == trim_end(s@.subrange(a as int, b as int)),
        decreases b - a,
    {
        assert(s@.subrange(a as int, b as int).drop_last() =~= s@.subrange(a as int, b - 1));
        b = b - 1;
    }
    s.substring_char(a, b)
}

/// An ASCII decimal digit.
pub open spec fn is_digit(c: char) -> bool {
    '0' <= c <= '9'
}

/// The number that a string of decimal digits spells.
pub open spec fn digits_value(s: Seq<char>) -> int
    decreases s.len(),
{
    if s.len() == 0 {
        0
    } else {
        digits_value(s.drop_last()) * 10 + (s.last() as int - '0' as int)
    }
}

/// The text after an optional leading `+`.
pub open spec fn unsigned_part(s: Seq<char>) -> Seq<char> {
    if s.len() > 0 && s[0] == '+' {
        s.drop_first()
    } else {
        s
    }
}

/// Every character is a decimal digit.
pub open spec fn all_digits(d: Seq<char>) -> bool {
    forall|i: int| 0 <= i < d.len() ==> is_digit(#[trigger] d[i])
}

/// The index an answer names, read as `usize::from_str` reads it: an optional
/// `+`, then one or more decimal digits, with a value that fits in `usize`.
pub open spec fn index_of(s: Seq<char>) -> Option<int> {
    let d = unsigned_part(s);
    if d.len() > 0 && all_digits(d) && digits_value(d) <= usize::MAX {
        Some(digits_value(d))
    } else {
        None
    }
}

proof fn lemma_digits_value_grows(s: Seq<char>, i: int)
    requires
        0 <= i <= s.len(),
        forall|k: int| 0 <= k < s.len() ==> is_digit(#[trigger] s[k]),
    ensures
        digits_value(s.subrange(0, i)) <= digits_value(s),
        0 <= digits_value(s.subrange(0, i)),
    decreases s.len(),
{
    if i < s.len() {
        let init = s.drop_last();
        lemma_digits_value_grows(init, i);
        assert(init.subrange(0, i) =~= s.subrange(0, i));
        lemma_digits_value_grows(init, init.len() as int);
        assert(init.subrange(0, init.len() as int) =~= init);
    } else {
        assert(s.subrange(0, i) =~= s);
        if s.len() > 0 {
            lemma_digits_value_grows(s.drop_last(), s.len() - 1);
            assert(s.drop_last().subrange(0, s.len() - 1) =~= s.drop_last());
        }
    }
}

/// Reads an index from an answer whose white space is already taken off.
pub fn parse_index(s: &str) -> (r: Option<usize>)
    ensures
        r matches Some(v) ==> index_of(s@) == Some(v as int),
        r is None ==> index_of(s@) is None,
{
    let n = s.unicode_len();
    let start: usize = if n > 0 && s.get_char(0) == '+' {
        1
    } else {
        0
    };
    let ghost d = unsigned_part(s@);
    assert(d =~= s@.subrange(start as int, n as int));
    if start == n {
        return None;
    }
    let mut value: usize = 0;
    let mut i: usize = start;
    while i < n
        invariant
            start <= i <= n,
            n == s@.len(),
            d == s@.subrange(start as int, n as int),
            d == unsigned_part(s@),
            forall|k: int| 0 <= k < i - start ==> is_digit(#[trigger] d[k]),
            value == digits_value(d.subrange(0, i - start)),
        decreases n - i,
    {
        let c = s.get_char(i);
        assert(c == d[i - start]);
        if c < '0' || c > '9' {
            assert(!is_digit(d[i - start]));
            assert(!all_digits(d));
            assert(index_of(s@) is None);
            return None;
        }
        let dig = (c as u32 - '0' as u32) as usize;
        assert(d.subrange(0, i + 1 - start).drop_last() =~= d.subrange(0, i - start));
        if value > (usize::MAX - dig) / 10 {
            proof {
                assert(forall|k: int| 0 <= k < i + 1 - start ==> is_digit(#[trigger] d[k]));
                assert(value * 10 + dig > usize::MAX) by (nonlinear_arith)
                    requires
                        value > (usize::MAX - dig) / 10,
                        dig <= 9,
                ;
                let full = d.subrange(0, i + 1 - start);
                assert(full.last() == c);
                assert(digits_value(full) == value * 10 + dig);
                if all_digits(d) {
                    lemma_digits_value_grows(d, i + 1 - start);
                }
                assert(index_of(s@) is None);
            }
            return None;
        }
        value = value * 10 + dig;
        i = i + 1;
    }
    assert(d.subrange(0, n - start) =~= d);
    Some(value)
}

/// What an operator's answer asks for in a group of a given size.
#[derive(Debug, PartialEq, Eq, Structural)]
pub enum Choice {
    /// Leave the group as it is.
    Skip,
    /// Keep the member at this index and delete the others.
    Keep(usize),
    /// Not an answer: ask again.
    Invalid,
}

/// The word that skips a group.
pub open spec fn skip_word() -> Seq<char> {
    seq!['s', 'k', 'i', 'p']
}

/// The choice an answer makes for a group of `count` members: `skip`, or an
/// index below `count`, once surrounding white space is taken off; anything
/// else is invalid.
pub open spec fn choice_of(input: Seq<char>, count: int) -> Choice {
    let t = trimmed(input);
    if t == skip_word() {
        Choice::Skip
    } else {
        match index_of(t) {
            Some(i) => if i < count {
                Choice::Keep(i as usize)
            } else {
                Choice::Invalid
            },
            None => Choice::Invalid,
        }
    }
}

proof fn lemma_index_nonneg(s: Seq<char>)
    ensures
        index_of(s) matches Some(v) ==> 0 <= v <= usize::MAX,
{
    let d = unsigned_part(s);
    if d.len() > 0 && all_digits(d) {
        lemma_digits_value_grows(d, d.len() as int);
        assert(d.subrange(0, d.len() as int) =~= d);
    }
}

/// Reads the operator's answer for a group of `member_count` members.
pub fn parse_choice(input: &str, member_count: usize) -> (r: Choice)
    ensures
        r == choice_of(input@, member_count as int),
{
    let t = trim(input);
    let n = t.unicode_len();
    if n == 4 && t.get_char(0) == 's' && t.get_char(1) == 'k' && t.get_char(2) == 'i'
        && t.get_char(3) == 'p' {
        assert(t@ =~= skip_word());
        return Choice::Skip;
    }
    assert(t@ != skip_word()) by {
        if t@ == skip_word() {
            assert(t@[0] == 's' && t@[1] == 'k' && t@[2] == 'i' && t@[3] == 'p');
        }
    }
    match parse_index(t) {
        Some(i) => if i < member_count {
            Choice::Keep(i)
        } else {
            Choice::Invalid
        },
        None => Choice::Invalid,
    }
}

/// The paths of `ms` other than `p`, in order.
pub open spec fn all_except(ms: Seq<Seq<char>>, p: Seq<char>) -> Seq<Seq<char>>
    decreases ms.len(),
{
    if ms.len() == 0 {
        Seq::empty()
    } else {
        let rest = all_except(ms.drop_last(), p);
        if ms.last() == p {
            rest
        } else {
            rest.push(ms.last())
        }
    }
}

/// The members of a group other than the one kept, in order. A path that
/// occurs twice is the same file, so every occurrence of the kept path stays.
pub fn paths_to_delete(members: &Vec<String>, keep: usize) -> (r: Vec<String>)
    requires
        keep < members@.len(),
    ensures
        strings_view(r@) == all_except(strings_view(members@), members@[keep as int]@),
{
    let ghost ms = strings_view(members@);
    let kept = &members[keep];
    let mut out: Vec<String> = Vec::new();
    let mut j: usize = 0;
    while j < members.len()
        invariant
            j <= members@.len(),
            ms == strings_view(members@),
            kept@ == ms[keep as int],
            keep < members@.len(),
            strings_view(out@) == all_except(ms.subrange(0, j as int), kept@),
        decreases members@.len() - j,
    {
        assert(ms.subrange(0, j + 1).drop_last() =~= ms.subrange(0, j as int));
        assert(ms.subrange(0, j + 1).last() == members@[j as int]@);
        if members[j] != *kept {
            let ghost prev = out@;
            out.push(members[j].clone());
            assert(strings_view(out@) =~= strings_view(prev).push(ms[j as int]));
        }
        j = j + 1;
    }
    assert(ms.subrange(0, ms.len() as int) =~= ms);
    out
}

proof fn lemma_all_except(ms: Seq<Seq<char>>, p: Seq<char>, q: Seq<char>)
    ensures
        all_except(ms, p).contains(q) <==> ms.contains(q) && q != p,
    decreases ms.len(),
{
    if ms.len() > 0 {
        let init = ms.drop_last();
        lemma_all_except(init, p, q);
        let w0 = all_except(init, p);
        let w1 = all_except(ms, p);
        if w1.contains(q) {
            let k = choose|k: int| 0 <= k < w1.len() && w1[k] == q;
            if k < w0.len() {
                assert(w0[k] == q);
                let j = choose|j: int| 0 <= j < init.len() && init[j] == q;
                assert(ms[j] == q);
            } else {
                assert(ms[ms.len() - 1] == q);
            }
        }
        if ms.contains(q) && q != p {
            let j = choose|j: int| 0 <= j < ms.len() && ms[j] == q;
            if j < init.len() {
                assert(init[j] == q);
                let k = choose|k: int| 0 <= k < w0.len() && w0[k] == q;
                assert(w1[k] == q);
            } else {
                assert(w1[w1.len() - 1] == q);
            }
        }
    }
}

/// What resolving a group comes to for one answer.
pub enum Outcome {
    /// The answer was invalid: nothing changes and the operator is asked again.
    Retry,
    /// The group is skipped: nothing changes.
    Unchanged,
    /// The member at `keep` stays and every path in `delete` is to be deleted.
    Resolved { keep: usize, delete: Vec<String> },
}

/// Decides, from the operator's answer, what becomes of a group whose members
/// are listed with indices from 0.
pub fn plan_group(members: &Vec<String>, input: &str) -> (r: Outcome)
    ensures
        match choice_of(input@, members@.len() as int) {
            Choice::Skip => r is Unchanged,
            Choice::Invalid => r is Retry,
            Choice::Keep(i) => match r {
                Outcome::Resolved { keep, delete } => keep == i && strings_view(delete@)
                    == all_except(strings_view(members@), members@[i as int]@),
                _ => false,
            },
        },
{
    proof {
        lemma_index_nonneg(trimmed(input@));
    }
    match parse_choice(input, members.len()) {
        Choice::Skip => Outcome::Unchanged,
        Choice::Invalid => Outcome::Retry,
        Choice::Keep(i) => Outcome::Resolved { keep: i, delete: paths_to_delete(members, i) },
    }
}

/// The files left on disk once the paths in `deleted` are removed.
pub open spec fn after_deleting(present: Set<Seq<char>>, deleted: Seq<Seq<char>>) -> Set<
    Seq<char>,
> {
    present.difference(deleted.to_set())
}

/// Resolving a group by keeping index `i` leaves exactly that one of its
/// files on disk, and touches no file outside the group.
pub proof fn lemma_resolve_keeps_one(
    members: Seq<Seq<char>>,
    input: Seq<char>,
    present: Set<Seq<char>>,
    i: usize,
)
    requires
        forall|k: int| 0 <= k < members.len() ==> present.contains(#[trigger] members[k]),
        choice_of(input, members.len() as int) == Choice::Keep(i),
    ensures
        i < members.len(),
        after_deleting(present, all_except(members, members[i as int])).intersect(
            members.to_set(),
        ) == set![members[i as int]],
        forall|p: Seq<char>|
            !members.contains(p) ==> (#[trigger] after_deleting(
                present,
                all_except(members, members[i as int]),
            ).contains(p) == present.contains(p)),
{
    lemma_index_nonneg(trimmed(input));
    assert(i < members.len());
    let kept = members[i as int];
    let deleted = all_except(members, kept);
    let after = after_deleting(present, deleted);
    assert forall|p: Seq<char>| #[trigger] after.intersect(members.to_set()).contains(p) <==> p
        == kept by {
        lemma_all_except(members, kept, p);
        if p == kept {
            assert(members.contains(p));
        }
    }
    assert(after.intersect(members.to_set()) =~= set![kept]);
    assert forall|p: Seq<char>| !members.contains(p) implies (#[trigger] after.contains(p)
        == present.contains(p)) by {
        lemma_all_except(members, kept, p);
    }
}

/// For a group of distinct paths, the paths deleted are exactly the members
/// at every index but the one kept.
pub proof fn lemma_distinct_deletes_others(members: Seq<Seq<char>>, i: int)
    requires
        members.no_duplicates(),
        0 <= i < members.len(),
    ensures
        all_except(members, members[i]) == members.remove(i),
    decreases members.len(),
{
    let init = members.drop_last();
    if i < members.len() - 1 {
        assert(init.no_duplicates());
        lemma_distinct_deletes_others(init, i);
        assert(init[i] == members[i]);
        assert(members.last() != members[i]);
        assert(members.remove(i) =~= init.remove(i).push(members.last()));
    } else {
        assert forall|k: int| 0 <= k < init.len() implies init[k] != members[i] by {
            assert(members[k] != members[i]);
        }
        lemma_all_except_none(init, members[i]);
        assert(members.remove(i) =~= init);
    }
}

proof fn lemma_all_except_none(ms: Seq<Seq<char>>, p: Seq<char>)
    requires
        forall|k: int| 0 <= k < ms.len() ==> ms[k] != p,
    ensures
        all_except(ms, p) == ms,
    decreases ms.len(),
{
    if ms.len() > 0 {
        lemma_all_except_none(ms.drop_last(), p);
        assert(ms.drop_last().push(ms.last()) =~= ms);
    }
}

/// An answer of `skip` (with any surrounding white space) leaves a group of
/// any size untouched: nothing is deleted and no file changes.
pub proof fn lemma_skip_leaves_all(input: Seq<char>, count: int, present: Set<Seq<char>>)
    requires
        trimmed(input) == skip_word(),
    ensures
        choice_of(input, count) == Choice::Skip,
        after_deleting(present, Seq::empty()) == present,
{
    assert(after_deleting(present, Seq::empty()) =~= present);
}

} // verus!
