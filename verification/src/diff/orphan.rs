//! The `[ARCHIVED-YYYY-MM-DD]` name prefix.
//!
//! A resource that Braze cannot delete is marked by this prefix to its name.

use crate::text::{chars_of, owned};
use crate::time::{date_text, is_date, zero_padded, CalendarDate, DateView};
use vstd::prelude::*;

verus! {

/// A decimal digit.
pub open spec fn is_digit(c: char) -> bool {
    '0' <= c && c <= '9'
}

/// The shape `NNNN-NN-NN`, whether or not it names a day.
pub open spec fn looks_like_date(s: Seq<char>) -> bool {
    &&& s.len() == 10
    &&& s[4] == '-'
    &&& s[7] == '-'
    &&& forall|i: int| 0 <= i < 10 && i != 4 && i != 7 ==> is_digit(#[trigger] s[i])
}

/// The name carries the archive prefix `[ARCHIVED-NNNN-NN-NN] `.
pub open spec fn archived(name: Seq<char>) -> bool {
    &&& name.len() >= 22
    &&& name.take(10) == "[ARCHIVED-"@
    &&& looks_like_date(name.subrange(10, 20))
    &&& name.subrange(20, 22) == "] "@
}

/// The name with the archive prefix; a name that has one keeps it.
pub open spec fn archived_name(today: DateView, original: Seq<char>) -> Seq<char> {
    if archived(original) {
        original
    } else {
        "[ARCHIVED-"@ + date_text(today) + "] "@ + original
    }
}

/// Puts the archive prefix in front of a name. A name that carries the prefix
/// of any day is returned as it is.
pub fn archive_name(today: CalendarDate, original: &str) -> (r: String)
    ensures
        r@ == archived_name(today@, original@),
{
    if is_archived(original) {
        return owned(original);
    }
    let mut out = owned("[ARCHIVED-");
    out.push_str(today.to_string().as_str());
    out.push_str("] ");
    out.push_str(original);
    out
}

/// Whether a name carries the archive prefix. The date is not checked against
/// the calendar.
pub fn is_archived(name: &str) -> (r: bool)
    ensures
        r == archived(name@),
{
    let c = chars_of(name);
    proof {
        reveal_strlit("[ARCHIVED-");
        reveal_strlit("] ");
        assert(c@.len() >= 22 ==> (c@.take(10) == "[ARCHIVED-"@ <==> forall|i: int|
            0 <= i < 10 ==> c@[i] == #[trigger] "[ARCHIVED-"@[i])) by {
            if c@.len() >= 22 {
                if forall|i: int| 0 <= i < 10 ==> c@[i] == #[trigger] "[ARCHIVED-"@[i] {
                    assert(c@.take(10) =~= "[ARCHIVED-"@);
                }
                if c@.take(10) == "[ARCHIVED-"@ {
                    assert forall|i: int| 0 <= i < 10 implies c@[i]
                        == #[trigger] "[ARCHIVED-"@[i] by {
                        assert(c@.take(10)[i] == c@[i]);
                    }
                }
            }
        }
    }
    if c.len() < 22 {
        return false;
    }
    let open = chars_of("[ARCHIVED-");
    let mut i: usize = 0;
    while i < 10
        invariant
            i <= 10,
            c@.len() >= 22,
            open@.len() == 10,
            c@ == name@,
            open@ == "[ARCHIVED-"@,
            forall|j: int| 0 <= j < i ==> c@[j] == #[trigger] "[ARCHIVED-"@[j],
        decreases 10 - i,
    {
        if c[i] != open[i] {
            assert(c@.take(10)[i as int] == c@[i as int]);
            return false;
        }
        i = i + 1;
    }
    let mut k: usize = 0;
    let ghost date = c@.subrange(10, 20);
    while k < 10
        invariant
            k <= 10,
            c@.len() >= 22,
            c@ == name@,
            date == c@.subrange(10, 20),
            forall|j: int|
                0 <= j < k ==> if j == 4 || j == 7 {
                    #[trigger] date[j] == '-'
                } else {
                    is_digit(date[j])
                },
        decreases 10 - k,
    {
        let x = c[10 + k];
        assert(date[k as int] == x);
        if k == 4 || k == 7 {
            if x != '-' {
                return false;
            }
        } else if x < '0' || x > '9' {
            return false;
        }
        k = k + 1;
    }
    proof {
        assert(date[4] == '-' && date[7] == '-');
        let close = c@.subrange(20, 22);
        assert(close[0] == c@[20] && close[1] == c@[21]);
        if c@[20] == ']' && c@[21] == ' ' {
            assert(close =~= "] "@);
        }
    }
    c[20] == ']' && c[21] == ' '
}

proof fn lemma_small_decimal(n: nat)
    ensures
        n < 10 ==> crate::text::decimal(n).len() == 1,
        10 <= n < 100 ==> crate::text::decimal(n).len() == 2,
        100 <= n < 1000 ==> crate::text::decimal(n).len() == 3,
        1000 <= n < 10000 ==> crate::text::decimal(n).len() == 4,
        forall|i: int|
            0 <= i < crate::text::decimal(n).len() ==> is_digit(
                #[trigger] crate::text::decimal(n)[i],
            ),
    decreases n,
{
    let last = crate::text::digit_char(n % 10);
    assert('0' as u32 + n % 10 == 48 + n % 10);
    assert(is_digit(last));
    if n >= 10 {
        lemma_small_decimal(n / 10);
        let p = crate::text::decimal(n / 10);
        assert forall|i: int| 0 <= i < crate::text::decimal(n).len() implies is_digit(
            #[trigger] crate::text::decimal(n)[i],
        ) by {
            if i < p.len() {
                assert(is_digit(p[i]));
            }
        }
    }
}

/// Archiving an archived name changes nothing, whatever day it is archived on
/// again. Years of more than four digits are left out: their notation is
/// longer than the prefix has room for.
pub proof fn archiving_twice_is_archiving_once(first: DateView, again: DateView, name: Seq<char>)
    requires
        is_date(first.year, first.month, first.day),
        0 <= first.year <= 9999,
    ensures
        archived(archived_name(first, name)),
        archived_name(again, archived_name(first, name)) == archived_name(first, name),
{
    if !archived(name) {
        reveal_strlit("[ARCHIVED-");
        reveal_strlit("] ");
        reveal_strlit("-");
        lemma_small_decimal(first.year as nat);
        lemma_small_decimal(first.month);
        lemma_small_decimal(first.day);
        let y = zero_padded(first.year as nat, 4);
        let m = zero_padded(first.month, 2);
        let d = zero_padded(first.day, 2);
        assert(y.len() == 4 && m.len() == 2 && d.len() == 2);
        let t = date_text(first);
        assert(t =~= y + seq!['-'] + m + seq!['-'] + d);
        assert(t.len() == 10);
        assert forall|i: int| 0 <= i < 10 && i != 4 && i != 7 implies is_digit(#[trigger] t[i]) by {
            if i < 4 {
                assert(t[i] == y[i]);
            } else if i < 7 {
                assert(t[i] == m[i - 5]);
            } else {
                assert(t[i] == d[i - 8]);
            }
        }
        let r = archived_name(first, name);
        assert(r.take(10) =~= "[ARCHIVED-"@);
        assert(r.subrange(10, 20) =~= t);
        assert(r.subrange(20, 22) =~= "] "@);
    }
}

/// A name counts as archived exactly if it begins with a bracket that says so
/// and a date of eight digits.
pub proof fn archived_names_carry_a_date(date: Seq<char>, rest: Seq<char>, name: Seq<char>)
    ensures
        date.len() == 10 ==> (archived("[ARCHIVED-"@ + date + "] "@ + rest) <==> date[4] == '-'
            && date[7] == '-' && (forall|i: int|
            0 <= i < 10 && i != 4 && i != 7 ==> '0' <= #[trigger] date[i] && date[i] <= '9')),
        archived(name) ==> "[ARCHIVED-"@.is_prefix_of(name) && name[20] == ']' && name[21] == ' ',
{
    reveal_strlit("[ARCHIVED-");
    reveal_strlit("] ");
    if date.len() == 10 {
        let n = "[ARCHIVED-"@ + date + "] "@ + rest;
        assert(n.take(10) =~= "[ARCHIVED-"@);
        assert(n.subrange(10, 20) =~= date);
        assert(n.subrange(20, 22) =~= "] "@);
        if archived(n) {
            assert forall|i: int| 0 <= i < 10 && i != 4 && i != 7 implies '0' <= #[trigger] date[i]
                && date[i] <= '9' by {
                assert(is_digit(date[i]));
            }
        }
    }
    if archived(name) {
        assert(name.subrange(20, 22)[0] == name[20]);
        assert(name.subrange(20, 22)[1] == name[21]);
    }
}

/// Archiving keeps the name behind the prefix and puts the day into it; a name
/// that is archived is left as it is.
pub proof fn archiving_puts_the_day_in_front(today: DateView, name: Seq<char>)
    ensures
        archived(name) ==> archived_name(today, name) == name,
        !archived(name) ==> ("[ARCHIVED-"@ + date_text(today) + "] "@).is_prefix_of(
            archived_name(today, name),
        ),
        name.is_suffix_of(archived_name(today, name)),
{
    let t = archived_name(today, name);
    let h = "[ARCHIVED-"@ + date_text(today) + "] "@;
    if !archived(name) {
        assert(t.take(h.len() as int) =~= h);
    }
    assert(t.skip(t.len() - name.len()) =~= name);
}

} // verus!
