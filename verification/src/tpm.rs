//! The security chip's interface: which one is opened, what a failure to open
//! it means, and the shapes of what it hands out.

use vstd::prelude::*;

use crate::bytes::append;
use crate::identity::{ChipResult, Tier};
use crate::text;

verus! {

/// Where the device key stays in the chip.
pub const PERSISTENT_HANDLE: u32 = 0x8100_0029;

/// Interface opened where none is named.
pub const DEFAULT_TCTI: &'static str = "device:/dev/tpmrm0";

/// Whether the interface variable names anything: blank counts as unset.
pub open spec fn names_tcti(v: Option<Seq<char>>) -> bool {
    v matches Some(s) && text::trimmed(s).len() > 0
}

/// Whether an interface was named.
pub fn tcti_explicitly_set(v: &Option<String>) -> (r: bool)
    ensures
        r == names_tcti(crate::atrest::opt(*v)),
{
    match v {
        Some(s) => {
            let cs = text::chars(s.as_str());
            text::trim(cs.as_slice()).len() > 0
        },
        None => false,
    }
}

/// The interface to open: the one that was named, as it was named.
pub fn tcti_conf(v: &Option<String>) -> (r: String)
    ensures
        r@ == if names_tcti(crate::atrest::opt(*v)) {
            v->Some_0@
        } else {
            DEFAULT_TCTI@
        },
{
    if tcti_explicitly_set(v) {
        if let Some(s) = v {
            return s.clone();
        }
    }
    DEFAULT_TCTI.to_owned()
}

/// What an unusable chip that was asked for reads.
pub open spec fn unusable(conf: Seq<char>, why: Seq<char>) -> Seq<char> {
    "TPM explicitly configured (AZTNA_TPM2_TCTI="@ + conf + ") but unusable: "@ + why
        + " — refusing silent software-key downgrade; fix the TPM or unset the env"@
}

/// What a chip that is not there reads.
pub open spec fn absent(conf: Seq<char>, why: Seq<char>) -> Seq<char> {
    "[identity] no usable TPM via default TCTI ("@ + conf + ") - "@ + why
}

/// What came of opening the chip: the key is there, or it is not and the note
/// says so, or a chip was named and the error says that no other key stands in.
pub fn open_or_create(v: &Option<String>, failure: &Option<String>) -> (r: Result<
    Option<String>,
    String,
>)
    ensures
        ({
            let named = names_tcti(crate::atrest::opt(*v));
            let conf = if named {
                v->Some_0@
            } else {
                DEFAULT_TCTI@
            };
            match *failure {
                None => r matches Ok(None),
                Some(why) => if named {
                    r matches Err(e) && e@ == unusable(conf, why@)
                } else {
                    r matches Ok(Some(n)) && n@ == absent(conf, why@)
                },
            }
        }),
{
    match failure {
        None => Ok(None),
        Some(why) => {
            let conf = tcti_conf(v);
            if tcti_explicitly_set(v) {
                let mut out = text::chars("TPM explicitly configured (AZTNA_TPM2_TCTI=");
                text::push_str(&mut out, conf.as_str());
                text::push_str(&mut out, ") but unusable: ");
                text::push_str(&mut out, why.as_str());
                text::push_str(
                    &mut out,
                    " — refusing silent software-key downgrade; fix the TPM or unset the env",
                );
                Err(text::string(out.as_slice()))
            } else {
                let mut out = text::chars("[identity] no usable TPM via default TCTI (");
                text::push_str(&mut out, conf.as_str());
                text::push_str(&mut out, ") - ");
                text::push_str(&mut out, why.as_str());
                Ok(Some(text::string(out.as_slice())))
            }
        },
    }
}

/// Law: opening the chip is an error exactly where the choice of a tier finds
/// no key at all.
pub proof fn law_error_means_no_key(v: Option<Seq<char>>, failed: bool)
    ensures
        (failed && names_tcti(v)) <==> crate::identity::tier(
            crate::identity::Platform::Linux,
            v is Some,
            names_tcti(v),
            None,
            if failed {
                ChipResult::Unusable
            } else {
                ChipResult::Opened
            },
        ) == Tier::Refused,
{
}

/// The uncompressed point from the two coordinates: 65 bytes, or the length
/// that came out instead.
pub fn public_point(x: &[u8], y: &[u8]) -> (r: Result<Vec<u8>, usize>)
    ensures
        ({
            let point = seq![0x04u8] + x@ + y@;
            match r {
                Ok(p) => point.len() == 65 && p@ == point,
                Err(n) => point.len() != 65 && n == point.len(),
            }
        }),
{
    let mut p: Vec<u8> = Vec::new();
    p.push(0x04);
    append(&mut p, x);
    append(&mut p, y);
    assert(p@ =~= seq![0x04u8] + x@ + y@);
    let n: usize = p.len();
    if n == 65 {
        Ok(p)
    } else {
        Err(n)
    }
}

/// A signature from its two halves, of 32 bytes each; else the two lengths.
pub fn raw_signature(r: &[u8], s: &[u8]) -> (out: Result<[u8; 64], (usize, usize)>)
    ensures
        match out {
            Ok(sig) => r@.len() == 32 && s@.len() == 32 && sig@ == r@ + s@,
            Err(l) => (r@.len() != 32 || s@.len() != 32) && l.0 == r@.len() && l.1 == s@.len(),
        },
{
    if r.len() != 32 || s.len() != 32 {
        return Err((r.len(), s.len()));
    }
    let mut sig: [u8; 64] = [0u8; 64];
    let mut i: usize = 0;
    while i < 32
        invariant
            i <= 32,
            r@.len() == 32,
            s@.len() == 32,
            forall|j: int| 0 <= j < i ==> sig@[j] == r@[j],
            forall|j: int| 0 <= j < i ==> sig@[32 + j] == s@[j],
        decreases 32 - i,
    {
        sig[i] = r[i];
        sig[32 + i] = s[i];
        i += 1;
    }
    proof {
        assert forall|j: int| 32 <= j < 64 implies sig@[j] == s@[j - 32] by {
            assert(sig@[32 + (j - 32)] == s@[j - 32]);
        }
    }
    assert(sig@ =~= r@ + s@);
    Ok(sig)
}

/// Law: an interface is named exactly if the variable holds a character that
/// is no white space.
pub proof fn law_names_tcti(s: Seq<char>)
    ensures
        !names_tcti(None),
        names_tcti(Some(s)) <==> exists|i: int|
            0 <= i < s.len() && !text::is_space(#[trigger] s[i]),
{
    text::law_trimmed(s);
    let (i, j) = choose|i: int, j: int| #[trigger] text::is_core(s, text::trimmed(s), i, j);
    if text::trimmed(s).len() > 0 {
        assert(s[i] == text::trimmed(s)[0]);
    }
}

} // verus!
