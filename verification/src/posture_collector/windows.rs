//! Windows posture signals, read out of management query rows.

use vstd::prelude::*;

use super::later;
use super::Snapshot;
use crate::calendar::date_to_unix;
use crate::text;

verus! {

/// The version text: caption and build number.
pub open spec fn version_text(caption: Seq<char>, build: Seq<char>) -> Seq<char> {
    caption + " (build "@ + build + ")"@
}

/// Formats the version text.
pub fn os_version_text(caption: &str, build: &str) -> (r: String)
    ensures
        r@ == version_text(caption@, build@),
{
    let mut out = text::chars(caption);
    text::push_str(&mut out, " (build ");
    text::push_str(&mut out, build);
    text::push_str(&mut out, ")");
    text::string(out.as_slice())
}

/// Whether a text begins with an eight-digit date.
pub open spec fn has_date(s: Seq<char>) -> bool {
    s.len() >= 8 && text::is_digits(s.subrange(0, 8))
}

/// The install date an eight-digit prefix stands for, as Unix seconds.
pub open spec fn install_unix(s: Option<Seq<char>>) -> Option<int> {
    match s {
        Some(v) => if has_date(v) {
            let y = text::dec_value(v.subrange(0, 4)) as int;
            let m = text::dec_value(v.subrange(4, 6)) as int;
            let d = text::dec_value(v.subrange(6, 8)) as int;
            Some(
                86400 * crate::calendar::march_days(
                    if m <= 2 {
                        y - 1
                    } else {
                        y
                    },
                    (m + 9) % 12,
                    d,
                ),
            )
        } else {
            None
        },
        None => None,
    }
}

fn two(c: char, d: char) -> (r: i64)
    requires
        text::is_digit(c),
        text::is_digit(d),
    ensures
        r == text::dec_value(seq![c, d]),
        0 <= r <= 99,
{
    proof {
        reveal_with_fuel(text::dec_value, 3);
        assert(seq![c, d].drop_last() =~= seq![c]);
        assert(seq![c].drop_last() =~= Seq::<char>::empty());
    }
    (c as u32 - '0' as u32) as i64 * 10 + (d as u32 - '0' as u32) as i64
}

proof fn lemma_four(s: Seq<char>)
    requires
        s.len() == 4,
    ensures
        text::dec_value(s) == 100 * text::dec_value(s.subrange(0, 2)) + text::dec_value(
            s.subrange(2, 4),
        ),
{
    reveal_with_fuel(text::dec_value, 5);
    assert(s.drop_last().drop_last() =~= s.subrange(0, 2));
    assert(s.subrange(2, 4).drop_last() =~= seq![s[2]]);
    assert(seq![s[2]].drop_last() =~= Seq::<char>::empty());
}

/// Reads the install date of one update row.
pub fn install_date(s: &Option<String>) -> (r: Option<i64>)
    ensures
        super::opt_int(r) == install_unix(super::opt_text(*s)),
{
    let v = match s {
        Some(v) => text::chars(v.as_str()),
        None => {
            return None;
        },
    };
    if v.len() < 8 {
        return None;
    }
    let ghost h = v@.subrange(0, 8);
    let mut i: usize = 0;
    while i < 8
        invariant
            i <= 8,
            v@.len() >= 8,
            h == v@.subrange(0, 8),
            super::opt_text(*s) == Some(v@),
            forall|j: int| 0 <= j < i ==> text::is_digit(#[trigger] h[j]),
        decreases 8 - i,
    {
        assert(h[i as int] == v@[i as int]);
        if v[i] < '0' || '9' < v[i] {
            assert(!text::is_digit(h[i as int]));
            return None;
        }
        i += 1;
    }
    assert forall|j: int| 0 <= j < 8 implies text::is_digit(#[trigger] v@[j]) by {
        assert(text::is_digit(h[j]));
    }
    let y: i64 = two(v[0], v[1]) * 100 + two(v[2], v[3]);
    let m: i64 = two(v[4], v[5]);
    let d: i64 = two(v[6], v[7]);
    proof {
        let ys = v@.subrange(0, 4);
        lemma_four(ys);
        assert(ys.subrange(0, 2) =~= seq![v@[0], v@[1]]);
        assert(ys.subrange(2, 4) =~= seq![v@[2], v@[3]]);
        assert(v@.subrange(4, 6) =~= seq![v@[4], v@[5]]);
        assert(v@.subrange(6, 8) =~= seq![v@[6], v@[7]]);
    }
    date_to_unix(y, m, d)
}

/// Install dates of the update rows.
pub open spec fn installs(rows: Seq<Option<String>>) -> Seq<Option<int>> {
    rows.map_values(|s: Option<String>| install_unix(super::opt_text(s)))
}

/// Division that rounds towards zero.
pub open spec fn div_toward_zero(a: int, b: int) -> int {
    if a >= 0 {
        a / b
    } else {
        -((-a) / b)
    }
}

/// Days since the newest installed update; negative for a date in the future.
pub fn patch_age_days(installed_on: &Vec<Option<String>>, now_unix: i64) -> (r: Option<i64>)
    ensures
        super::opt_int(r) == match super::newest(installs(installed_on@)) {
            Some(t) => Some(div_toward_zero(now_unix - t, 86_400)),
            None => None,
        },
{
    let ghost all = installs(installed_on@);
    let mut newest: Option<i64> = None;
    let mut i: usize = 0;
    while i < installed_on.len()
        invariant
            i <= installed_on@.len(),
            all == installs(installed_on@),
            super::opt_int(newest) == super::newest(all.subrange(0, i as int)),
        decreases installed_on@.len() - i,
    {
        let d = install_date(&installed_on[i]);
        let ghost next = all.subrange(0, i + 1);
        assert(next.drop_last() =~= all.subrange(0, i as int));
        assert(next.last() == super::opt_int(d));
        newest = later(newest, d);
        i += 1;
    }
    assert(all.subrange(0, i as int) =~= all);
    match newest {
        Some(t) => {
            let diff: i128 = now_unix as i128 - t as i128;
            if diff >= 0 {
                Some((diff as u128 / 86_400) as i64)
            } else {
                Some(-(((-diff) as u128 / 86_400) as i64))
            }
        },
        None => None,
    }
}

/// Firewall state: every profile enabled; undetermined without profiles.
pub fn firewall(profiles: &Vec<bool>) -> (r: Option<bool>)
    ensures
        r == if profiles@.len() == 0 {
            None
        } else {
            Some(!profiles@.contains(false))
        },
{
    if profiles.len() == 0 {
        return None;
    }
    let mut i: usize = 0;
    while i < profiles.len()
        invariant
            i <= profiles@.len(),
            profiles@.len() > 0,
            forall|j: int| 0 <= j < i ==> #[trigger] profiles@[j],
        decreases profiles@.len() - i,
    {
        if !profiles[i] {
            assert(profiles@.contains(false));
            return Some(false);
        }
        i += 1;
    }
    Some(true)
}

/// Drive encryption from a volume's protection status.
pub fn bitlocker(protection_status: Option<u32>) -> (r: Option<bool>)
    ensures
        r == match protection_status {
            Some(s) => Some(s == 1),
            None => None,
        },
{
    match protection_status {
        Some(s) => Some(s == 1),
        None => None,
    }
}

/// A registered antivirus product.
#[derive(Debug)]
pub struct Antivirus {
    pub display_name: String,
    pub product_state: u32,
}

/// Whether a product state says enabled and up to date.
pub open spec fn state_healthy(product_state: u32) -> bool {
    product_state & 0x1000 != 0 && product_state & 0x10 == 0
}

/// The first of the products whose lower-cased name speaks of Defender.
pub open spec fn first_defender(rows: Seq<(Seq<char>, u32)>) -> Option<u32>
    decreases rows.len(),
{
    if rows.len() == 0 {
        None
    } else if text::contains(rows[0].0, "defender"@) {
        Some(rows[0].1)
    } else {
        first_defender(rows.drop_first())
    }
}

/// Names in lower case with their states.
pub open spec fn lowered(rows: Seq<Antivirus>) -> Seq<(Seq<char>, u32)> {
    rows.map_values(
        |a: Antivirus| (text::lowercase(a.display_name@), a.product_state),
    )
}

/// Whether a lower-cased product name speaks of Defender.
pub fn is_defender(low: &str) -> (r: bool)
    ensures
        r == text::contains(low@, "defender"@),
{
    let cs = text::chars(low);
    text::has_str(cs.as_slice(), "defender")
}

/// Defender health from the registered antivirus products.
pub fn defender(products: &Vec<Antivirus>) -> (r: Option<bool>)
    ensures
        r == match first_defender(lowered(products@)) {
            Some(s) => Some(state_healthy(s)),
            None => None,
        },
{
    let ghost all = lowered(products@);
    let mut i: usize = 0;
    assert(all.subrange(0, all.len() as int) =~= all);
    while i < products.len()
        invariant
            i <= products@.len(),
            all == lowered(products@),
            first_defender(all) == first_defender(all.subrange(i as int, all.len() as int)),
        decreases products@.len() - i,
    {
        let ghost tail = all.subrange(i as int, all.len() as int);
        assert(tail[0] == all[i as int]);
        assert(tail.drop_first() =~= all.subrange(i + 1, all.len() as int));
        let p = &products[i];
        let low = text::to_lowercase(p.display_name.as_str());
        if is_defender(low.as_str()) {
            let state: u32 = p.product_state;
            return Some(state & 0x1000 != 0 && state & 0x10 == 0);
        }
        i += 1;
    }
    assert(all.subrange(i as int, all.len() as int) =~= Seq::<(Seq<char>, u32)>::empty());
    None
}

/// What one pass read from a Windows system; `None` where a query failed.
#[derive(Debug)]
pub struct Readings {
    /// Caption and build number.
    pub os: Option<(String, String)>,
    pub installed_on: Option<Vec<Option<String>>>,
    /// Unix time of the pass.
    pub now_unix: i64,
    pub firewall_profiles: Option<Vec<bool>>,
    pub protection_status: Option<u32>,
    pub antivirus: Option<Vec<Antivirus>>,
}

/// One collection pass.
pub fn collect(x: &Readings) -> (r: Snapshot)
    ensures
        r.slot_age_secs == Some(0i64),
        r.domain_joined is None,
        super::opt_text(r.os_version) == match x.os {
            Some((c, b)) => Some(version_text(c@, b@)),
            None => None,
        },
        super::opt_int(r.days_since_patch) == match x.installed_on {
            Some(rows) => match super::newest(installs(rows@)) {
                Some(t) => Some(div_toward_zero(x.now_unix - t, 86_400)),
                None => None,
            },
            None => None,
        },
        r.firewall_enabled == match x.firewall_profiles {
            Some(ps) => if ps@.len() == 0 {
                None
            } else {
                Some(!ps@.contains(false))
            },
            None => None,
        },
        r.bitlocker_on == match x.protection_status {
            Some(s) => Some(s == 1),
            None => None,
        },
        r.defender_healthy == match x.antivirus {
            Some(ps) => match first_defender(lowered(ps@)) {
                Some(s) => Some(state_healthy(s)),
                None => None,
            },
            None => None,
        },
{
    let os_version = match &x.os {
        Some((c, b)) => Some(os_version_text(c.as_str(), b.as_str())),
        None => None,
    };
    let days_since_patch = match &x.installed_on {
        Some(rows) => patch_age_days(rows, x.now_unix),
        None => None,
    };
    let firewall_enabled = match &x.firewall_profiles {
        Some(ps) => firewall(ps),
        None => None,
    };
    let defender_healthy = match &x.antivirus {
        Some(ps) => defender(ps),
        None => None,
    };
    Snapshot {
        bitlocker_on: bitlocker(x.protection_status),
        defender_healthy,
        firewall_enabled,
        os_version,
        days_since_patch,
        domain_joined: None,
        slot_age_secs: Some(0),
    }
}

/// Law: an install date of eight digits is its day: four for the year, two for
/// the month and two for the day, as seconds; what does not begin with eight
/// digits is no date.
pub proof fn law_install_date(ys: Seq<char>, ms: Seq<char>, ds: Seq<char>, tail: Seq<char>)
    requires
        ys.len() == 4 && text::is_digits(ys),
        ms.len() == 2 && text::is_digits(ms),
        ds.len() == 2 && text::is_digits(ds),
        1 <= text::dec_value(ms) <= 12,
    ensures
        install_unix(Some(ys + ms + ds + tail)) == Some(
            86400 * crate::calendar::civil_days(
                text::dec_value(ys) as int,
                text::dec_value(ms) as int,
                text::dec_value(ds) as int,
            ),
        ),
        install_unix(None) is None,
        install_unix(Some(ys + ms)) is None,
{
    let s = ys + ms + ds + tail;
    let p = s.subrange(0, 8);
    assert(p =~= ys + ms + ds);
    assert forall|i: int| 0 <= i < 8 implies text::is_digit(#[trigger] p[i]) by {
        if i < 4 {
            assert(p[i] == ys[i]);
        } else if i < 6 {
            assert(p[i] == ms[i - 4]);
        } else {
            assert(p[i] == ds[i - 6]);
        }
    }
    assert(s.subrange(0, 4) =~= ys);
    assert(s.subrange(4, 6) =~= ms);
    assert(s.subrange(6, 8) =~= ds);
    let m = text::dec_value(ms) as int;
    crate::calendar::lemma_march_days(text::dec_value(ys) as int, m, text::dec_value(ds) as int);
}

/// Law: a product is healthy exactly if the bit for enabled is set in its
/// state and the bit for out of date is not.
pub proof fn law_state_healthy(s: u32)
    ensures
        state_healthy(s) <==> (s / 4096) % 2 == 1 && (s / 16) % 2 == 0,
{
    assert((s & 0x1000 != 0) == ((s / 4096) % 2 == 1)) by (bit_vector);
    assert((s & 0x10 == 0) == ((s / 16) % 2 == 0)) by (bit_vector);
}

/// Law: of the products the first one that is Defender counts; none where none
/// is.
pub proof fn law_first_defender(rows: Seq<(Seq<char>, u32)>)
    ensures
        match first_defender(rows) {
            Some(s) => exists|i: int|
                #![trigger rows[i]]
                0 <= i < rows.len() && rows[i].1 == s && text::contains(rows[i].0, "defender"@)
                    && forall|j: int|
                    0 <= j < i ==> !text::contains((#[trigger] rows[j]).0, "defender"@),
            None => forall|j: int|
                0 <= j < rows.len() ==> !text::contains((#[trigger] rows[j]).0, "defender"@),
        },
    decreases rows.len(),
{
    if rows.len() > 0 {
        if text::contains(rows[0].0, "defender"@) {
            assert(rows[0].1 == first_defender(rows)->Some_0);
        } else {
            let t = rows.drop_first();
            law_first_defender(t);
            match first_defender(t) {
                Some(s) => {
                    let k = choose|i: int|
                        #![trigger t[i]]
                        0 <= i < t.len() && t[i].1 == s && text::contains(t[i].0, "defender"@)
                            && forall|j: int|
                            0 <= j < i ==> !text::contains((#[trigger] t[j]).0, "defender"@);
                    assert(rows[k + 1] == t[k]);
                    assert forall|j: int| 0 <= j < k + 1 implies !text::contains(
                        (#[trigger] rows[j]).0,
                        "defender"@,
                    ) by {
                        if j > 0 {
                            assert(rows[j] == t[j - 1]);
                        }
                    }
                },
                None => {
                    assert forall|j: int| 0 <= j < rows.len() implies !text::contains(
                        (#[trigger] rows[j]).0,
                        "defender"@,
                    ) by {
                        if j > 0 {
                            assert(rows[j] == t[j - 1]);
                        }
                    }
                },
            }
        }
    }
}

/// Law: division that rounds towards zero is symmetric, and never further from
/// zero than the quotient.
pub proof fn law_div_toward_zero(a: int, b: int)
    requires
        b > 0,
    ensures
        div_toward_zero(-a, b) == -div_toward_zero(a, b),
        a >= 0 ==> div_toward_zero(a, b) == a / b,
{
    assert(0int / b == 0) by (nonlinear_arith)
        requires
            b > 0,
    ;
}

/// Law: the version text holds the caption and the build.
pub proof fn law_version_text(caption: Seq<char>, build: Seq<char>)
    ensures
        text::has_prefix(version_text(caption, build), caption),
        text::has_suffix(version_text(caption, build), " (build "@ + build + ")"@),
{
    let v = version_text(caption, build);
    let tail = " (build "@ + build + ")"@;
    assert(v.subrange(0, caption.len() as int) =~= caption);
    assert(v.subrange(v.len() - tail.len(), v.len() as int) =~= tail);
}

} // verus!
