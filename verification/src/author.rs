use chrono::offset::Offset;
use chrono::TimeZone;
use vstd::prelude::*;
use vstd::string::*;

verus! {

/// The canonical decimal representation of `n`, as characters.
pub open spec fn dec_chars(n: nat) -> Seq<char>
    decreases n,
{
    if n < 10 {
        seq![((48 + n) as u8) as char]
    } else {
        dec_chars(n / 10).push(((48 + n % 10) as u8) as char)
    }
}

fn digit_str(d: u64) -> (r: String)
    requires
        d < 10,
    ensures
        r@ == seq![((48 + d) as u8) as char],
{
    let r = match d {
        0 => String::from_str("0"),
        1 => String::from_str("1"),
        2 => String::from_str("2"),
        3 => String::from_str("3"),
        4 => String::from_str("4"),
        5 => String::from_str("5"),
        6 => String::from_str("6"),
        7 => String::from_str("7"),
        8 => String::from_str("8"),
        _ => String::from_str("9"),
    };
    proof {
        reveal_strlit("0");
        reveal_strlit("1");
        reveal_strlit("2");
        reveal_strlit("3");
        reveal_strlit("4");
        reveal_strlit("5");
        reveal_strlit("6");
        reveal_strlit("7");
        reveal_strlit("8");
        reveal_strlit("9");
        assert(r@ =~= seq![((48 + d) as u8) as char]);
    }
    r
}

/// Render a number in decimal.
pub fn u64_to_dec_string(n: u64) -> (r: String)
    ensures
        r@ == dec_chars(n as nat),
    decreases n,
{
    if n < 10 {
        digit_str(n)
    } else {
        let mut s = u64_to_dec_string(n / 10);
        let d = digit_str(n % 10);
        s.append(d.as_str());
        proof {
            assert(s@ =~= dec_chars(n as nat));
        }
        s
    }
}

/// Relies on chrono's `Local` zone and `Offset::fix`: the local offset from
/// UTC in seconds, strictly within a day either way (the documented
/// invariant of `FixedOffset`).
#[verifier::external_body]
fn local_utc_offset() -> (r: i32)
    ensures
        -86400 < r < 86400,
{
    chrono::Local.timestamp_opt(0, 0).unwrap().offset().fix().local_minus_utc()
}

/// The `Author` object packages up the name, the email and the time values
/// that form the contents of the author and committer headers in a commit.
pub struct Author {
    /// Author's name.
    pub name: String,

    /// Author's email.
    pub email: String,

    /// Time and timezone offset, as serialized into the headers.
    pub time: String,
}

/// A time string with the zone offset appended, as the author header
/// carries it.
pub open spec fn time_with_offset(time: Seq<char>, off: int) -> Seq<char> {
    time + " "@ + (if off < 0 {
        "-"@
    } else {
        "+"@
    }) + dec_chars((if off < 0 {
        -off
    } else {
        off
    }) as nat)
}

/// The header form of an author: `name <email> time`.
pub open spec fn author_chars(a: Author) -> Seq<char> {
    a.name@ + " <"@ + a.email@ + "> "@ + a.time@
}

impl Author {
    /// Create a new `Author`.
    /// This automatically appends the machine's timezone offset to the time.
    pub fn new(name: String, email: String, time: String) -> (r: Author)
        ensures
            r.name == name,
            r.email == email,
            exists|off: int|
                -86400 < off < 86400 && r.time@ == #[trigger] time_with_offset(time@, off),
    {
        let offset = local_utc_offset();
        let sign = if offset < 0 {
            String::from_str("-")
        } else {
            String::from_str("+")
        };
        let mag: i32 = if offset < 0 {
            -offset
        } else {
            offset
        };
        let mut t = time;
        t.append(" ");
        t.append(sign.as_str());
        let digits = u64_to_dec_string(mag as u64);
        t.append(digits.as_str());
        proof {
            let off = offset as int;
            assert(-86400 < off < 86400 && t@ == time_with_offset(time@, off));
        }
        Author { name, email, time: t }
    }

    /// The author line as it appears in a commit header.
    pub fn to_display_string(&self) -> (r: String)
        ensures
            r@ == author_chars(*self),
    {
        let mut s = self.name.clone();
        s.append(" <");
        s.append(self.email.as_str());
        s.append("> ");
        s.append(self.time.as_str());
        proof {
            assert(s@ =~= author_chars(*self));
        }
        s
    }
}

} // verus!
