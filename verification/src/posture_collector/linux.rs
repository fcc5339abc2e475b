//! Linux posture signals, read out of what the system's files and tools say.
//!
//! `bitlocker_on` is a dm-crypt layer under the root file system,
//! `firewall_enabled` an active firewall service, `domain_joined` a detected
//! domain integration, and `days_since_patch` the age of the package database.

use vstd::prelude::*;

use super::patch_age_from;
use super::Snapshot;
use crate::text;

verus! {

/// A value out of an `os-release` line, without white space and quotes.
pub open spec fn unquoted(v: Seq<char>) -> Seq<char> {
    text::strip_char(text::trimmed(v), '"')
}

/// The distribution's name: `PRETTY_NAME`, else `NAME`.
pub open spec fn distro(os_release: Seq<char>) -> Option<Seq<char>> {
    match text::after_prefix(text::lines(os_release), "PRETTY_NAME="@) {
        Some(v) => Some(unquoted(v)),
        None => match text::after_prefix(text::lines(os_release), "NAME="@) {
            Some(v) => Some(unquoted(v)),
            None => None,
        },
    }
}

/// Name and kernel release, both present and not empty.
pub open spec fn os_build(os_release: Seq<char>, kernel: Seq<char>) -> Option<
    (Seq<char>, Seq<char>),
> {
    match distro(os_release) {
        Some(p) => if p.len() == 0 || text::trimmed(kernel).len() == 0 {
            None
        } else {
            Some((p, text::trimmed(kernel)))
        },
        None => None,
    }
}

/// Reads the distribution's name and the kernel release.
pub fn os_build_from(os_release: &str, osrelease_sys: &str) -> (r: Option<(String, String)>)
    ensures
        match r {
            Some((p, k)) => os_build(os_release@, osrelease_sys@) == Some((p@, k@)),
            None => os_build(os_release@, osrelease_sys@) is None,
        },
{
    let cs = text::chars(os_release);
    let ls = text::split_lines(cs.as_slice());
    let pretty_key = text::chars("PRETTY_NAME=");
    let name_key = text::chars("NAME=");
    let raw = match text::line_after(&ls, pretty_key.as_slice()) {
        Some(v) => Some(v),
        None => text::line_after(&ls, name_key.as_slice()),
    };
    let raw = match raw {
        Some(v) => v,
        None => {
            return None;
        },
    };
    let t = text::trim(raw.as_slice());
    let pretty = text::trim_char(t.as_slice(), '"');
    let kcs = text::chars(osrelease_sys);
    let kernel = text::trim(kcs.as_slice());
    if pretty.len() == 0 || kernel.len() == 0 {
        return None;
    }
    Some((text::string(pretty.as_slice()), text::string(kernel.as_slice())))
}

/// The version text of a distribution and its kernel.
pub open spec fn version_text(pretty: Seq<char>, kernel: Seq<char>) -> Seq<char> {
    pretty + " (kernel "@ + kernel + ")"@
}

/// Formats the version text.
pub fn os_version_text(os_release: &str, osrelease_sys: &str) -> (r: Option<String>)
    ensures
        super::opt_text(r) == match os_build(os_release@, osrelease_sys@) {
            Some((p, k)) => Some(version_text(p, k)),
            None => None,
        },
{
    match os_build_from(os_release, osrelease_sys) {
        Some((p, k)) => {
            let mut out = text::chars(p.as_str());
            text::push_str(&mut out, " (kernel ");
            text::push_str(&mut out, k.as_str());
            text::push_str(&mut out, ")");
            Some(text::string(out.as_slice()))
        },
        None => None,
    }
}

/// Whether every line is blank.
pub open spec fn all_blank(ls: Seq<Seq<char>>) -> bool {
    forall|i: int| 0 <= i < ls.len() ==> (#[trigger] ls[i]).len() == 0
}

/// Firewall state from `systemctl is-active` output: any unit active. Output
/// that reports nothing leaves it undetermined.
pub fn firewall_from(is_active_output: &str) -> (r: Option<bool>)
    ensures
        r == if all_blank(text::trimmed_lines(is_active_output@)) {
            None
        } else {
            Some(text::trimmed_lines(is_active_output@).contains("active"@))
        },
{
    let cs = text::chars(is_active_output);
    let ls = text::split_trimmed_lines(cs.as_slice());
    let mut i: usize = 0;
    while i < ls.len()
        invariant
            i <= ls@.len(),
            forall|j: int| 0 <= j < i ==> (#[trigger] ls@[j])@.len() == 0,
            text::views(ls@) == text::trimmed_lines(is_active_output@),
        decreases ls@.len() - i,
    {
        if ls[i].len() > 0 {
            assert(text::views(ls@)[i as int].len() > 0);
            return Some(text::has_line(&ls, "active"));
        }
        i += 1;
    }
    assert forall|j: int| 0 <= j < text::views(ls@).len() implies (#[trigger] text::views(
        ls@,
    )[j]).len() == 0 by {
        assert(ls@[j]@.len() == 0);
    }
    None
}

/// Whether a line of the mount table mounts the root.
pub open spec fn mounts_root(line: Seq<char>) -> bool {
    text::words(line).len() >= 2 && text::words(line)[1] == "/"@
}

/// The first line that mounts the root.
pub open spec fn root_line(ls: Seq<Seq<char>>) -> Option<Seq<char>>
    decreases ls.len(),
{
    if ls.len() == 0 {
        None
    } else if mounts_root(ls[0]) {
        Some(ls[0])
    } else {
        root_line(ls.drop_first())
    }
}

/// The device of the root mount; none for an initial or layered root.
pub open spec fn root_source(mounts: Seq<char>) -> Option<Seq<char>> {
    match root_line(text::lines(mounts)) {
        Some(l) => {
            let src = text::words(l)[0];
            if src == "rootfs"@ || text::has_prefix(src, "overlay"@) {
                None
            } else {
                Some(src)
            }
        },
        None => None,
    }
}

/// Finds the device of the root mount in a mount table.
pub fn root_mount_source(mounts: &str) -> (r: Option<String>)
    ensures
        super::opt_text(r) == root_source(mounts@),
{
    let cs = text::chars(mounts);
    let ls = text::split_lines(cs.as_slice());
    let ghost all = text::views(ls@);
    let mut i: usize = 0;
    assert(all.subrange(0, all.len() as int) =~= all);
    while i < ls.len()
        invariant
            i <= ls@.len(),
            all == text::views(ls@),
            all == text::lines(mounts@),
            root_line(all) == root_line(all.subrange(i as int, all.len() as int)),
        decreases ls@.len() - i,
    {
        let ghost tail = all.subrange(i as int, all.len() as int);
        assert(tail[0] == ls@[i as int]@);
        assert(tail.drop_first() =~= all.subrange(i + 1, all.len() as int));
        let ws = text::split_words(ls[i].as_slice());
        assert(text::views(ws@) == text::words(ls@[i as int]@));
        if ws.len() >= 2 && text::is_str(ws[1].as_slice(), "/") {
            assert(text::views(ws@)[1] == ws@[1]@);
            assert(text::views(ws@)[0] == ws@[0]@);
            let src = &ws[0];
            if text::is_str(src.as_slice(), "rootfs") || text::starts_with_str(
                src.as_slice(),
                "overlay",
            ) {
                return None;
            }
            return Some(text::string(src.as_slice()));
        }
        proof {
            if ws@.len() >= 2 {
                assert(text::views(ws@)[1] == ws@[1]@);
            }
        }
        i += 1;
    }
    assert(all.subrange(i as int, all.len() as int) =~= Seq::<Seq<char>>::empty());
    None
}

/// Disk encryption from the device types under the root: a "crypt" layer
/// anywhere in the chain.
pub fn disk_crypto_from(lsblk_types: &str) -> (r: Option<bool>)
    ensures
        r == if text::lines(lsblk_types@).len() == 0 {
            None
        } else {
            Some(text::trimmed_lines(lsblk_types@).contains("crypt"@))
        },
{
    let cs = text::chars(lsblk_types);
    let ls = text::split_trimmed_lines(cs.as_slice());
    assert(text::views(ls@).len() == text::lines(lsblk_types@).len());
    if ls.len() == 0 {
        return None;
    }
    Some(text::has_line(&ls, "crypt"))
}

/// Domain integration: configured sssd, or a realm listing that names one.
pub fn domain_joined(sssd_configured: bool, realm_listing: &Option<String>) -> (r: Option<bool>)
    ensures
        r == if sssd_configured {
            Some(true)
        } else {
            match *realm_listing {
                Some(l) => Some(text::trimmed(l@).len() > 0),
                None => None,
            }
        },
{
    if sssd_configured {
        return Some(true);
    }
    match realm_listing {
        Some(l) => {
            let cs = text::chars(l.as_str());
            Some(text::trim(cs.as_slice()).len() > 0)
        },
        None => None,
    }
}

/// What one pass read from a Linux system; `None` where a read failed.
#[derive(Debug)]
pub struct Readings {
    pub os_release: Option<String>,
    pub kernel_release: Option<String>,
    /// Modification time of the package database, Unix seconds.
    pub package_db_mtime: Option<i64>,
    /// Unix time of the pass.
    pub now_unix: i64,
    /// `systemctl is-active` over the firewall units.
    pub firewall_units: Option<String>,
    pub mounts: Option<String>,
    /// `lsblk` device types under the root mount's source.
    pub root_types: Option<String>,
    pub sssd_configured: bool,
    pub realm_listing: Option<String>,
}

/// One collection pass.
pub fn collect(x: &Readings) -> (r: Snapshot)
    ensures
        r.defender_healthy is None,
        r.slot_age_secs == Some(0i64),
        super::opt_text(r.os_version) == match (x.os_release, x.kernel_release) {
            (Some(o), Some(k)) => match os_build(o@, k@) {
                Some((p, kr)) => Some(version_text(p, kr)),
                None => None,
            },
            _ => None,
        },
        super::opt_int(r.days_since_patch) == match x.package_db_mtime {
            Some(t) => Some(super::days_between(x.now_unix as int, t as int)),
            None => None,
        },
        r.firewall_enabled == match x.firewall_units {
            Some(o) => if all_blank(text::trimmed_lines(o@)) {
                None
            } else {
                Some(text::trimmed_lines(o@).contains("active"@))
            },
            None => None,
        },
        r.bitlocker_on == match (x.mounts, x.root_types) {
            (Some(m), Some(t)) => if root_source(m@) is None || text::lines(t@).len() == 0 {
                None
            } else {
                Some(text::trimmed_lines(t@).contains("crypt"@))
            },
            _ => None,
        },
        r.domain_joined == if x.sssd_configured {
            Some(true)
        } else {
            match x.realm_listing {
                Some(l) => Some(text::trimmed(l@).len() > 0),
                None => None,
            }
        },
{
    let bitlocker_on = match (&x.mounts, &x.root_types) {
        (Some(m), Some(t)) => match root_mount_source(m.as_str()) {
            Some(_) => disk_crypto_from(t.as_str()),
            None => None,
        },
        _ => None,
    };
    let firewall_enabled = match &x.firewall_units {
        Some(o) => firewall_from(o.as_str()),
        None => None,
    };
    let os_version = match (&x.os_release, &x.kernel_release) {
        (Some(o), Some(k)) => os_version_text(o.as_str(), k.as_str()),
        _ => None,
    };
    let days_since_patch = match x.package_db_mtime {
        Some(t) => Some(patch_age_from(x.now_unix, t)),
        None => None,
    };
    Snapshot {
        bitlocker_on,
        defender_healthy: None,
        firewall_enabled,
        os_version,
        days_since_patch,
        domain_joined: domain_joined(x.sssd_configured, &x.realm_listing),
        slot_age_secs: Some(0),
    }
}

/// Law: a value in quotes is what stands between them, and one without quotes
/// is itself; white space around it does not count.
pub proof fn law_unquoted(v: Seq<char>)
    requires
        v.len() > 0,
        v[0] != '"' && v.last() != '"',
        !text::is_space(v[0]) && !text::is_space(v.last()),
    ensures
        unquoted(v) == v,
        unquoted(seq!['"'] + v + seq!['"']) == v,
        unquoted(seq!['"'] + v + seq!['"', '\n']) == v,
{
    let q = seq!['"'] + v + seq!['"'];
    assert(text::trimmed(v) == v);
    assert(text::trimmed(q) == q);
    let n = seq!['"'] + v + seq!['"', '\n'];
    assert(n.drop_last() =~= q);
    assert(text::skip_space(n) == n);
    assert(text::drop_space(n) == text::drop_space(q));
    let t = v + seq!['"'];
    assert(q.drop_first() =~= t);
    assert(t[0] == v[0]);
    assert(text::skip_char(t, '"') == t);
    assert(text::skip_char(q, '"') == t);
    assert(t.drop_last() =~= v);
    assert(text::drop_char(v, '"') == v);
    assert(text::drop_char(t, '"') == v);
}

/// Law: the distribution's name is that of the first line with its full name,
/// else of the first line with its name; there is none exactly where there is
/// neither.
pub proof fn law_distro(os_release: Seq<char>)
    ensures
        ({
            let ls = text::lines(os_release);
            &&& distro(os_release) is None <==> forall|i: int|
                0 <= i < ls.len() ==> !text::has_prefix(#[trigger] ls[i], "PRETTY_NAME="@)
                    && !text::has_prefix(ls[i], "NAME="@)
            &&& distro(os_release) matches Some(d) ==> exists|i: int|
                #![trigger ls[i]]
                0 <= i < ls.len() && names_distro(ls, i, d)
        }),
{
    let ls = text::lines(os_release);
    text::law_after_prefix(ls, "PRETTY_NAME="@);
    text::law_after_prefix(ls, "NAME="@);
    let p = "PRETTY_NAME="@;
    let q = "NAME="@;
    match text::after_prefix(ls, p) {
        Some(v) => {
            let i = choose|i: int|
                #![trigger ls[i]]
                0 <= i < ls.len() && ls[i] == p + v && forall|j: int|
                    0 <= j < i ==> !text::has_prefix(#[trigger] ls[j], p);
            assert(ls[i].subrange(0, p.len() as int) =~= p);
            assert(text::has_prefix(ls[i], p));
            assert(text::rest(ls[i], p.len() as int) =~= v);
            assert(names_distro(ls, i, unquoted(v)));
        },
        None => {
            if let Some(v) = text::after_prefix(ls, q) {
                let i = choose|i: int|
                    #![trigger ls[i]]
                    0 <= i < ls.len() && ls[i] == q + v && forall|j: int|
                        0 <= j < i ==> !text::has_prefix(#[trigger] ls[j], q);
                assert(ls[i].subrange(0, q.len() as int) =~= q);
                assert(text::has_prefix(ls[i], q));
                assert(text::rest(ls[i], q.len() as int) =~= v);
                assert(names_distro(ls, i, unquoted(v)));
            }
        },
    }
}

/// Whether line `i` is the one that names the distribution: the first with the
/// full name, or the first with the name where no line has the full one.
pub open spec fn names_distro(ls: Seq<Seq<char>>, i: int, d: Seq<char>) -> bool {
    ||| {
        &&& text::has_prefix(ls[i], "PRETTY_NAME="@)
        &&& d == unquoted(text::rest(ls[i], "PRETTY_NAME="@.len() as int))
        &&& forall|j: int| 0 <= j < i ==> !text::has_prefix(#[trigger] ls[j], "PRETTY_NAME="@)
    }
    ||| {
        &&& text::has_prefix(ls[i], "NAME="@)
        &&& d == unquoted(text::rest(ls[i], "NAME="@.len() as int))
        &&& forall|j: int| 0 <= j < ls.len() ==> !text::has_prefix(#[trigger] ls[j], "PRETTY_NAME="@)
    }
}

/// Law: the version is known exactly where both the name and the kernel's
/// release are there and not blank, and its text holds both.
pub proof fn law_os_build(os_release: Seq<char>, kernel: Seq<char>)
    ensures
        os_build(os_release, kernel) is Some <==> (distro(os_release) matches Some(d) && d.len()
            > 0) && text::trimmed(kernel).len() > 0,
        os_build(os_release, kernel) matches Some((p, k)) ==> distro(os_release) == Some(p) && k
            == text::trimmed(kernel) && text::has_prefix(version_text(p, k), p) && text::has_suffix(
            version_text(p, k),
            " (kernel "@ + k + ")"@,
        ),
{
    if let Some((p, k)) = os_build(os_release, kernel) {
        let v = version_text(p, k);
        let tail = " (kernel "@ + k + ")"@;
        assert(v.subrange(0, p.len() as int) =~= p);
        assert(v.subrange(v.len() - tail.len(), v.len() as int) =~= tail);
    }
}

/// Law: the root's line is the first one whose second word is the root; the
/// root's device is its first word, unless the root is an initial or layered
/// one.
pub proof fn law_root_source(ls: Seq<Seq<char>>)
    ensures
        match root_line(ls) {
            Some(l) => exists|i: int|
                #![trigger ls[i]]
                0 <= i < ls.len() && ls[i] == l && text::words(l).len() >= 2 && text::words(l)[1]
                    == "/"@ && forall|j: int| 0 <= j < i ==> !mounts_root(#[trigger] ls[j]),
            None => forall|j: int| 0 <= j < ls.len() ==> !mounts_root(#[trigger] ls[j]),
        },
    decreases ls.len(),
{
    if ls.len() > 0 {
        if mounts_root(ls[0]) {
            assert(ls[0] == root_line(ls)->Some_0);
        } else {
            let t = ls.drop_first();
            law_root_source(t);
            match root_line(t) {
                Some(l) => {
                    let k = choose|i: int|
                        #![trigger t[i]]
                        0 <= i < t.len() && t[i] == l && text::words(l).len() >= 2 && text::words(
                            l,
                        )[1] == "/"@ && forall|j: int|
                            0 <= j < i ==> !mounts_root(#[trigger] t[j]);
                    assert(ls[k + 1] == l);
                    assert forall|j: int| 0 <= j < k + 1 implies !mounts_root(#[trigger] ls[j]) by {
                        if j > 0 {
                            assert(ls[j] == t[j - 1]);
                        }
                    }
                },
                None => {
                    assert forall|j: int| 0 <= j < ls.len() implies !mounts_root(
                        #[trigger] ls[j],
                    ) by {
                        if j > 0 {
                            assert(ls[j] == t[j - 1]);
                        }
                    }
                },
            }
        }
    }
}

/// Law: which root devices count: that of the root's line, but for an initial
/// root and for layered ones.
pub proof fn law_root_device(mounts: Seq<char>, src: Seq<char>)
    ensures
        root_source(mounts) == Some(src) <==> (root_line(text::lines(mounts)) matches Some(l)
            && text::words(l)[0] == src) && src != "rootfs"@ && !text::has_prefix(
            src,
            "overlay"@,
        ),
{
}

} // verus!
