//! Types and constants shared by the components.

use vstd::prelude::*;

use crate::text;

pub mod addrs;
pub mod ips;
pub mod ports;
pub mod process;
pub mod urls;

verus! {

/// Canonical product name used across components.
pub const APP_NAME: &'static str = "aZTNA";

/// Errors common to the components.
#[derive(Debug)]
pub enum CommonError {
    Config(String),
    NotImplemented(&'static str),
}

impl CommonError {
    /// The message of the error.
    pub fn message(&self) -> (r: String)
        ensures
            r@ == match self {
                CommonError::Config(s) => "config error: "@ + s@,
                CommonError::NotImplemented(s) => "not implemented yet: "@ + s@,
            },
    {
        match self {
            CommonError::Config(s) => "config error: ".to_owned().concat(s.as_str()),
            CommonError::NotImplemented(s) => "not implemented yet: ".to_owned().concat(s),
        }
    }
}

/// The tenant's transport mode: which carrier is preferred. A preference
/// distributed by polling, never a matter of trust.
#[derive(Debug, Clone, Copy, PartialEq, Eq, Structural)]
pub enum TransportMode {
    Auto,
    TcpFirst,
    QuicOnly,
    TcpOnly,
}

impl Default for TransportMode {
    fn default() -> (r: Self)
        ensures
            r == TransportMode::Auto,
    {
        TransportMode::Auto
    }
}

/// A field of a received message, as far as it matters here.
#[derive(Debug, Clone, PartialEq, Eq)]
pub enum JsonField {
    /// The field is not there.
    Missing,
    /// The field is `null`.
    Null,
    /// The field is a string.
    Str(String),
    /// The field is a value of another type.
    Other,
}

/// The wire value of a mode.
pub open spec fn wire(m: TransportMode) -> Seq<char> {
    match m {
        TransportMode::Auto => "auto"@,
        TransportMode::TcpFirst => "tcp_first"@,
        TransportMode::QuicOnly => "quic_only"@,
        TransportMode::TcpOnly => "tcp_only"@,
    }
}

/// Whether a text is the wire value of some mode.
pub open spec fn is_wire(s: Seq<char>) -> bool {
    exists|m: TransportMode| #[trigger] wire(m) == s
}

/// Law: the four wire values differ.
pub proof fn law_wire_injective(a: TransportMode, b: TransportMode)
    ensures
        wire(a) == wire(b) ==> a == b,
{
    reveal_strlit("auto");
    reveal_strlit("tcp_first");
    reveal_strlit("quic_only");
    reveal_strlit("tcp_only");
    if wire(a) == wire(b) && a != b {
        assert(wire(a).len() == wire(b).len());
        assert(wire(a)[0] == wire(b)[0]);
    }
}

/// The mode a received text selects, and whether it was not a known one.
pub open spec fn lenient(s: Seq<char>, r: (TransportMode, bool)) -> bool {
    if is_wire(s) {
        wire(r.0) == s && !r.1
    } else {
        r == (TransportMode::Auto, true)
    }
}

impl TransportMode {
    /// Every mode.
    pub fn all() -> (r: [TransportMode; 4])
        ensures
            r@ == seq![
                TransportMode::Auto,
                TransportMode::TcpFirst,
                TransportMode::QuicOnly,
                TransportMode::TcpOnly,
            ],
            forall|m: TransportMode| #[trigger] r@.contains(m),
    {
        let r = [
            TransportMode::Auto,
            TransportMode::TcpFirst,
            TransportMode::QuicOnly,
            TransportMode::TcpOnly,
        ];
        proof {
            assert(r@ =~= seq![
                TransportMode::Auto,
                TransportMode::TcpFirst,
                TransportMode::QuicOnly,
                TransportMode::TcpOnly,
            ]);
            assert forall|m: TransportMode| #[trigger] r@.contains(m) by {
                let k: int = match m {
                    TransportMode::Auto => 0,
                    TransportMode::TcpFirst => 1,
                    TransportMode::QuicOnly => 2,
                    TransportMode::TcpOnly => 3,
                };
                assert(r@[k] == m);
            }
        }
        r
    }

    /// The wire value.
    pub fn as_str(&self) -> (r: &'static str)
        ensures
            r@ == wire(*self),
    {
        match self {
            TransportMode::Auto => "auto",
            TransportMode::TcpFirst => "tcp_first",
            TransportMode::QuicOnly => "quic_only",
            TransportMode::TcpOnly => "tcp_only",
        }
    }

    /// Strict parse, for values that must be exact: an unknown value is an
    /// error, never a silent default.
    pub fn parse_exact(s: &str) -> (r: Option<TransportMode>)
        ensures
            match r {
                Some(m) => wire(m) == s@,
                None => !is_wire(s@),
            },
    {
        let all = TransportMode::all();
        let mut i: usize = 0;
        while i < 4
            invariant
                i <= 4,
                all@.len() == 4,
                forall|m: TransportMode| #[trigger] all@.contains(m),
                forall|j: int| 0 <= j < i ==> wire(#[trigger] all@[j]) != s@,
            decreases 4 - i,
        {
            if text::str_eq(all[i].as_str(), s) {
                return Some(all[i]);
            }
            i += 1;
        }
        proof {
            if is_wire(s@) {
                let m = choose|m: TransportMode| #[trigger] wire(m) == s@;
                assert(all@.contains(m));
                let j = choose|j: int| 0 <= j < 4 && all@[j] == m;
                assert(wire(all@[j]) != s@);
            }
        }
        None
    }

    /// Lenient parse of a received value: the mode, and whether the value was
    /// unknown and `Auto` stands in for it.
    pub fn parse_lenient(s: &str) -> (r: (TransportMode, bool))
        ensures
            lenient(s@, r),
    {
        match TransportMode::parse_exact(s) {
            Some(m) => {
                assert(wire(m) == s@);
                (m, false)
            },
            None => (TransportMode::Auto, true),
        }
    }

    /// The mode a message field selects. Missing and null are `Auto`; any
    /// value that is not a known mode is `Auto` with the second part set. A
    /// message never fails to parse for this field's sake.
    pub fn from_json_fail_safe(v: &JsonField) -> (r: (TransportMode, bool))
        ensures
            match v {
                JsonField::Missing | JsonField::Null => r == (TransportMode::Auto, false),
                JsonField::Str(s) => lenient(s@, r),
                JsonField::Other => r == (TransportMode::Auto, true),
            },
    {
        match v {
            JsonField::Missing => (TransportMode::Auto, false),
            JsonField::Null => (TransportMode::Auto, false),
            JsonField::Str(s) => TransportMode::parse_lenient(s.as_str()),
            JsonField::Other => (TransportMode::Auto, true),
        }
    }
}

/// The seconds a tuning variable stands for: its number where it is one and
/// not below the floor, else the default.
pub open spec fn tuned_secs(value: Option<Seq<char>>, default: u64, min: u64) -> u64 {
    match value {
        Some(s) => match text::number(s, u64::MAX as nat) {
            Some(v) => if v >= min {
                v as u64
            } else {
                default
            },
            None => default,
        },
        None => default,
    }
}

/// Seconds from a tuning variable's value: absent, unreadable or below the
/// floor means the default.
pub fn env_secs(value: Option<&str>, default: u64, min: u64) -> (r: u64)
    ensures
        r == tuned_secs(
            match value {
                Some(v) => Some(v@),
                None => None,
            },
            default,
            min,
        ),
{
    if let Some(v) = value {
        let cs = text::chars(v);
        if let Some(n) = text::parse_number(cs.as_slice(), u64::MAX) {
            if n >= min {
                return n;
            }
        }
    }
    default
}

/// Law: a mode's own wire value selects it, and a text that is none selects
/// the default and is told apart.
pub proof fn law_lenient(m: TransportMode, s: Seq<char>, r: (TransportMode, bool))
    ensures
        lenient(wire(m), r) <==> r == (m, false),
        s != "auto"@ && s != "tcp_first"@ && s != "quic_only"@ && s != "tcp_only"@ ==> (lenient(s, r)
            <==> r == (TransportMode::Auto, true)),
        wire(TransportMode::Auto) == "auto"@,
        wire(TransportMode::TcpFirst) == "tcp_first"@,
        wire(TransportMode::QuicOnly) == "quic_only"@,
        wire(TransportMode::TcpOnly) == "tcp_only"@,
{
    if lenient(wire(m), r) {
        assert(is_wire(wire(m)));
        law_wire_injective(r.0, m);
    }
    assert(is_wire(wire(m)));
}

/// Law: a tuning variable counts where it is a number that is not below the
/// floor; else the default does.
pub proof fn law_tuned_secs(n: u64, s: Seq<char>, default: u64, min: u64)
    requires
        text::number(s, u64::MAX as nat) is None,
    ensures
        n >= min ==> tuned_secs(Some(text::decimal(n as nat)), default, min) == n,
        n < min ==> tuned_secs(Some(text::decimal(n as nat)), default, min) == default,
        tuned_secs(Some(s), default, min) == default,
        tuned_secs(None, default, min) == default,
{
    text::lemma_decimal_number(n as nat, u64::MAX as nat);
}

} // verus!
