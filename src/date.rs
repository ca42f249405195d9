//! Calendar dates in the `YYYY-MM-DD` form used by the availability calendars.
use vstd::prelude::*;
use vstd::string::is_ascii_spec_bytes;
use vstd::utf8::is_ascii_chars;
use vstd::string::is_ascii;
use vstd::string::StringExecFns;

verus! {

/// Whether `c` is an ASCII decimal digit.
pub open spec fn is_digit(c: char) -> bool {
    '0' <= c && c <= '9'
}

/// Whether `s` is a calendar date written as four digits, a hyphen, two
/// digits, a hyphen and two digits.
pub open spec fn is_date_text(s: Seq<char>) -> bool {
    &&& s.len() == 10
    &&& forall|i: int|
        0 <= i < 10 ==> if i == 4 || i == 7 {
            #[trigger] s[i] == '-'
        } else {
            is_digit(s[i])
        }
}

/// Lexicographic order on character sequences: `a` comes strictly after `b`.
/// On dates of the fixed `YYYY-MM-DD` form this is the chronological order.
pub open spec fn later(a: Seq<char>, b: Seq<char>) -> bool
    decreases a.len(),
{
    if a.len() == 0 {
        false
    } else if b.len() == 0 {
        true
    } else if a[0] != b[0] {
        a[0] > b[0]
    } else {
        later(a.drop_first(), b.drop_first())
    }
}

/// No sequence is later than itself, nor are two sequences each later than the other.
pub proof fn lemma_later_asymmetric(a: Seq<char>, b: Seq<char>)
    ensures
        !(later(a, b) && later(b, a)),
    decreases a.len(),
{
    if a.len() > 0 && b.len() > 0 && a[0] == b[0] {
        lemma_later_asymmetric(a.drop_first(), b.drop_first());
    }
}

/// Of two different sequences, one is later than the other.
pub proof fn lemma_later_total(a: Seq<char>, b: Seq<char>)
    ensures
        a != b ==> later(a, b) || later(b, a),
    decreases a.len(),
{
    if a.len() > 0 && b.len() > 0 && a[0] == b[0] {
        lemma_later_total(a.drop_first(), b.drop_first());
        if a.drop_first() == b.drop_first() {
            assert(a =~= seq![a[0]] + a.drop_first());
            assert(b =~= seq![b[0]] + b.drop_first());
        }
    } else if a.len() == 0 && b.len() == 0 {
        assert(a =~= b);
    }
}

/// The order is transitive.
pub proof fn lemma_later_transitive(a: Seq<char>, b: Seq<char>, c: Seq<char>)
    requires
        later(a, b),
        later(b, c),
    ensures
        later(a, c),
    decreases a.len(),
{
    if a.len() > 0 && b.len() > 0 && c.len() > 0 && a[0] == b[0] && b[0] == c[0] {
        lemma_later_transitive(a.drop_first(), b.drop_first(), c.drop_first());
    }
}

/// Whether `s` is a well-formed calendar date.
pub fn is_date(s: &str) -> (r: bool)
    ensures
        r == is_date_text(s@),
{
    broadcast use is_ascii_spec_bytes;

    if !s.is_ascii() {
        proof {
            if is_date_text(s@) {
                assert forall|i: int| 0 <= i < s@.len() implies '\0' <= #[trigger] s@[i] <= '\u{7f}' by {
                    if i == 4 || i == 7 {
                        assert(s@[i] == '-');
                    } else {
                        assert(is_digit(s@[i]));
                    }
                }
            }
        }
        return false;
    }
    let b = s.as_bytes();
    if b.len() != 10 {
        return false;
    }
    let mut i: usize = 0;
    while i < 10
        invariant
            b@.len() == 10,
            s@.len() == 10,
            forall|k: int| 0 <= k < s@.len() ==> b@[k] == s@[k] as u8,
            forall|k: int| 0 <= k < s@.len() ==> '\0' <= #[trigger] s@[k] <= '\u{7f}',
            0 <= i <= 10,
            forall|k: int|
                0 <= k < i ==> if k == 4 || k == 7 {
                    #[trigger] s@[k] == '-'
                } else {
                    is_digit(s@[k])
                },
        decreases 10 - i,
    {
        let c = b[i];
        assert(s@[i as int] as u8 == c);
        let ok = if i == 4 || i == 7 {
            c == 45u8
        } else {
            48u8 <= c && c <= 57u8
        };
        if !ok {
            assert(!is_date_text(s@));
            return false;
        }
        i = i + 1;
    }
    true
}

/// A calendar date, held as its `YYYY-MM-DD` text.
#[derive(Debug)]
pub struct Date {
    text: String,
}

impl View for Date {
    type V = Seq<char>;

    closed spec fn view(&self) -> Seq<char> {
        self.text@
    }
}

impl Date {
    #[verifier::type_invariant]
    spec fn well_formed(self) -> bool {
        is_date_text(self.text@)
    }

    /// The date that `s` writes, if `s` is a well-formed calendar date.
    pub fn parse(s: &str) -> (r: Option<Date>)
        ensures
            r is Some <==> is_date_text(s@),
            r matches Some(d) ==> d@ == s@,
    {
        if is_date(s) {
            Some(Date { text: s.to_owned() })
        } else {
            None
        }
    }

    /// The date's `YYYY-MM-DD` text.
    pub fn as_str(&self) -> (r: &str)
        ensures
            r@ == self@,
    {
        self.text.as_str()
    }

    /// Whether this date comes strictly after `other`.
    pub fn is_later_than(&self, other: &Date) -> (r: bool)
        ensures
            r == later(self@, other@),
    {
        broadcast use is_ascii_spec_bytes;

        proof {
            use_type_invariant(self);
            use_type_invariant(other);
        }
        let ghost sa = self@;
        let ghost sb = other@;
        let ta: &str = self.text.as_str();
        let tb: &str = other.text.as_str();
        let a = ta.as_bytes();
        let b = tb.as_bytes();
        proof {
            assert(is_ascii_chars(sa)) by {
                assert forall|i: int| 0 <= i < sa.len() implies '\0' <= #[trigger] sa[i] <= '\u{7f}' by {
                    if i == 4 || i == 7 {
                        assert(sa[i] == '-');
                    } else {
                        assert(is_digit(sa[i]));
                    }
                }
            }
            assert(is_ascii_chars(sb)) by {
                assert forall|i: int| 0 <= i < sb.len() implies '\0' <= #[trigger] sb[i] <= '\u{7f}' by {
                    if i == 4 || i == 7 {
                        assert(sb[i] == '-');
                    } else {
                        assert(is_digit(sb[i]));
                    }
                }
            }
            assert(is_ascii(ta));
            assert(is_ascii(tb));
            assert(sa.skip(0) =~= sa);
            assert(sb.skip(0) =~= sb);
        }
        let mut k: usize = 0;
        while k < 10
            invariant
                sa == self@,
                sb == other@,
                sa.len() == 10,
                sb.len() == 10,
                a@.len() == 10,
                b@.len() == 10,
                is_ascii_chars(sa),
                is_ascii_chars(sb),
                forall|j: int| 0 <= j < 10 ==> a@[j] == sa[j] as u8,
                forall|j: int| 0 <= j < 10 ==> b@[j] == sb[j] as u8,
                0 <= k <= 10,
                later(sa, sb) == later(sa.skip(k as int), sb.skip(k as int)),
            decreases 10 - k,
        {
            let x = a[k];
            let y = b[k];
            assert(sa[k as int] as u8 == x);
            assert(sb[k as int] as u8 == y);
            assert(sa.skip(k as int)[0] == sa[k as int]);
            assert(sb.skip(k as int)[0] == sb[k as int]);
            if x != y {
                assert(sa[k as int] != sb[k as int]);
                assert((x > y) == (sa[k as int] > sb[k as int]));
                assert(sa.skip(k as int).len() > 0 && sb.skip(k as int).len() > 0);
                assert(later(sa.skip(k as int), sb.skip(k as int)) == (x > y));
                return x > y;
            }
            assert(sa.skip(k as int).drop_first() =~= sa.skip(k + 1));
            assert(sb.skip(k as int).drop_first() =~= sb.skip(k + 1));
            k = k + 1;
        }
        false
    }
}

/// The name of the nightly toolchain of `date`, as rustup knows it.
pub fn nightly_toolchain(date: &Date) -> (r: String)
    ensures
        r@ == "nightly-"@ + date@,
{
    let mut name = "nightly-".to_owned();
    name.append(date.as_str());
    name
}

impl Clone for Date {
    fn clone(&self) -> (r: Date)
        ensures
            r@ == self@,
    {
        proof {
            use_type_invariant(self);
        }
        Date { text: self.text.clone() }
    }
}

impl PartialEq for Date {
    fn eq(&self, other: &Date) -> (r: bool) {
        self.text == other.text
    }
}

impl vstd::std_specs::cmp::PartialEqSpecImpl for Date {
    open spec fn obeys_eq_spec() -> bool {
        true
    }

    open spec fn eq_spec(&self, other: &Date) -> bool {
        self@ == other@
    }
}

} // verus!
