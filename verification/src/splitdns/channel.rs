//! Rules of the operating system's resolver, as every platform shows them.

use vstd::prelude::*;

use super::generation_of;
use super::nrpt::NrptRule;
use crate::text;

verus! {

/// Times a privileged call is made before it counts as failed.
pub const ATTEMPTS: u32 = 2;

/// Milliseconds that each call is given.
pub const CALL_TIMEOUT_MS: u64 = 2_000;

/// An installed rule. The id is what it is deleted by.
#[derive(Debug)]
pub struct InstalledRule {
    pub namespace: String,
    pub id: String,
    /// The generation of a rule that carries the tag; none for a foreign one.
    pub generation: Option<String>,
}

/// Model of an [`InstalledRule`].
#[verifier::ext_equal]
pub struct RuleView {
    pub namespace: Seq<char>,
    pub id: Seq<char>,
    pub generation: Option<Seq<char>>,
}

impl View for InstalledRule {
    type V = RuleView;

    open spec fn view(&self) -> RuleView {
        RuleView {
            namespace: self.namespace@,
            id: self.id@,
            generation: crate::atrest::opt(self.generation),
        }
    }
}

/// The contents of rules.
pub open spec fn rule_views(v: Seq<InstalledRule>) -> Seq<RuleView> {
    v.map_values(|r: InstalledRule| r@)
}

/// A rule out of its namespace, comment and id.
pub fn tagged_rule(namespace: String, comment: &str, id: String) -> (r: InstalledRule)
    ensures
        r@ == (RuleView {
            namespace: namespace@,
            id: id@,
            generation: super::tag_generation(comment@),
        }),
{
    let generation = generation_of(comment);
    InstalledRule { namespace, id, generation }
}

/// The rules of the Windows table, as every platform shows them.
pub fn enumerate_sync(rules: &Vec<NrptRule>) -> (r: Vec<InstalledRule>)
    ensures
        r@.len() == rules@.len(),
        forall|i: int|
            0 <= i < r@.len() ==> (#[trigger] r@[i])@ == (RuleView {
                namespace: rules@[i].namespace@,
                id: rules@[i].guid@,
                generation: super::tag_generation(rules@[i].comment@),
            }),
{
    let mut out: Vec<InstalledRule> = Vec::new();
    let mut i: usize = 0;
    while i < rules.len()
        invariant
            i <= rules@.len(),
            out@.len() == i,
            forall|j: int|
                0 <= j < i ==> (#[trigger] out@[j])@ == (RuleView {
                    namespace: rules@[j].namespace@,
                    id: rules@[j].guid@,
                    generation: super::tag_generation(rules@[j].comment@),
                }),
        decreases rules@.len() - i,
    {
        let x = &rules[i];
        out.push(tagged_rule(x.namespace.clone(), x.comment.as_str(), x.guid.clone()));
        i += 1;
    }
    out
}

/// Whether a call that has failed this many times is made again.
pub fn retries(failures: u32) -> (r: bool)
    ensures
        r == (failures < ATTEMPTS),
{
    failures < ATTEMPTS
}

/// The line that shows a rule: one JSON object.
pub open spec fn status_of(r: RuleView) -> Seq<char> {
    "{\"namespace\":\""@ + r.namespace + "\",\"id\":\""@ + r.id + "\",\"ours\":"@
        + crate::posture_probes::truth(r.generation is Some) + ",\"generation\":"@ + match r.generation {
        Some(g) => "\""@ + g + "\""@,
        None => "null"@,
    } + "}"@
}

/// Writes the line that shows a rule.
pub fn status_line(r: &InstalledRule) -> (s: String)
    ensures
        s@ == status_of(r@),
{
    let mut out = text::chars("{\"namespace\":\"");
    text::push_str(&mut out, r.namespace.as_str());
    text::push_str(&mut out, "\",\"id\":\"");
    text::push_str(&mut out, r.id.as_str());
    text::push_str(&mut out, "\",\"ours\":");
    let ours = crate::posture_probes::truth_text(r.generation.is_some());
    text::push_str(&mut out, ours.as_str());
    text::push_str(&mut out, ",\"generation\":");
    match &r.generation {
        Some(g) => {
            let ghost before = out@;
            text::push_str(&mut out, "\"");
            text::push_str(&mut out, g.as_str());
            text::push_str(&mut out, "\"");
            assert(out@ =~= before + ("\""@ + g@ + "\""@));
        },
        None => {
            text::push_str(&mut out, "null");
        },
    }
    text::push_str(&mut out, "}");
    text::string(out.as_slice())
}

/// Law: the line that shows a rule reads back: cut at its double quotes it
/// holds the name, the id and, for a rule of ours, the generation; it says
/// whether the rule is ours.
#[verifier::spinoff_prover]
#[verifier::rlimit(100)]
pub proof fn law_status_reads_back(r: RuleView)
    requires
        !r.namespace.contains('"'),
        !r.id.contains('"'),
        r.generation matches Some(g) ==> !g.contains('"'),
    ensures
        ({
            let p = text::split(status_of(r), '"');
            &&& p[1] == "namespace"@ && p[3] == r.namespace
            &&& p[5] == "id"@ && p[7] == r.id
            &&& p[9] == "ours"@
            &&& r.generation matches Some(g) ==> p[10] == ":true,"@ && p[13] == g && p.len() == 15
            &&& r.generation is None ==> p[10] == ":false,"@ && p[12] == ":null}"@ && p.len() == 13
        }),
{
    reveal_strlit("{\"namespace\":\"");
    reveal_strlit("\",\"id\":\"");
    reveal_strlit("\",\"ours\":");
    reveal_strlit(",\"generation\":");
    reveal_strlit("\"");
    reveal_strlit("null");
    reveal_strlit("}");
    reveal_strlit("true");
    reveal_strlit("false");
    reveal_strlit("namespace");
    reveal_strlit("id");
    reveal_strlit("ours");
    reveal_strlit(":true,");
    reveal_strlit(":false,");
    reveal_strlit(":null}");
    let q = seq!['"'];
    let c = seq![':'];
    let k = seq![','];
    let gen_word = seq!['g', 'e', 'n', 'e', 'r', 'a', 't', 'i', 'o', 'n'];
    let ours = if r.generation is Some {
        ":true,"@
    } else {
        ":false,"@
    };
    let head = seq![
        seq!['{'],
        "namespace"@,
        c,
        r.namespace,
        k,
        "id"@,
        c,
        r.id,
        k,
        "ours"@,
        ours,
        gen_word,
    ];
    lemma_twelve(
        seq!['{'],
        "namespace"@,
        c,
        r.namespace,
        k,
        "id"@,
        c,
        r.id,
        k,
        "ours"@,
        ours,
        gen_word,
    );
    assert("{\"namespace\":\""@ =~= seq!['{'] + q + "namespace"@ + q + c + q);
    assert("\",\"id\":\""@ =~= q + k + q + "id"@ + q + c + q);
    assert("\",\"ours\":"@ =~= q + k + q + "ours"@ + q + c);
    assert(",\"generation\":"@ =~= k + q + gen_word + q + c);
    let start = text::joined(head, q);
    let tail = match r.generation {
        Some(g) => seq![c, g, "}"@],
        None => seq![":null}"@],
    };
    text::law_joined(head, tail, q);
    match r.generation {
        Some(g) => {
            let t2 = seq![c, g];
            assert(tail.drop_last() =~= t2);
            assert(t2.drop_last() =~= seq![c]);
            assert(text::joined(seq![c], q) == c);
            assert(text::joined(t2, q) == c + q + g);
            assert(text::joined(tail, q) == c + q + g + q + "}"@);
            assert(ours =~= c + "true"@ + k);
            assert("\""@ =~= q);
            assert(status_of(r) =~= start + q + (c + q + g + q + "}"@));
        },
        None => {
            assert(text::joined(tail, q) == ":null}"@);
            assert(ours =~= c + "false"@ + k);
            assert(":null}"@ =~= c + "null"@ + "}"@);
            assert(status_of(r) =~= start + q + ":null}"@);
        },
    }
    let p = head + tail;
    assert forall|i: int| 0 <= i < p.len() implies !(#[trigger] p[i]).contains('"') by {
        if i < 12 {
            assert(p[i] == head[i]);
        } else {
            assert(p[i] == tail[i - 12]);
        }
    }
    text::lemma_joined_split(p, '"');
}

proof fn lemma_twelve(
    p1: Seq<char>,
    p2: Seq<char>,
    p3: Seq<char>,
    p4: Seq<char>,
    p5: Seq<char>,
    p6: Seq<char>,
    p7: Seq<char>,
    p8: Seq<char>,
    p9: Seq<char>,
    p10: Seq<char>,
    p11: Seq<char>,
    p12: Seq<char>,
)
    ensures
        ({
            let q = seq!['"'];
            text::joined(seq![p1, p2, p3, p4, p5, p6, p7, p8, p9, p10, p11, p12], q) == p1 + q + p2
                + q + p3 + q + p4 + q + p5 + q + p6 + q + p7 + q + p8 + q + p9 + q + p10 + q + p11
                + q + p12
        }),
{
    let q = seq!['"'];
    let a = seq![p1, p2, p3, p4, p5, p6];
    let b = seq![p7, p8, p9, p10, p11, p12];
    lemma_six(p1, p2, p3, p4, p5, p6);
    lemma_six(p7, p8, p9, p10, p11, p12);
    text::law_joined(a, b, q);
    assert(a + b =~= seq![p1, p2, p3, p4, p5, p6, p7, p8, p9, p10, p11, p12]);
    let l = p1 + q + p2 + q + p3 + q + p4 + q + p5 + q + p6;
    let r = p7 + q + p8 + q + p9 + q + p10 + q + p11 + q + p12;
    assert(l + q + r =~= l + q + p7 + q + p8 + q + p9 + q + p10 + q + p11 + q + p12);
}

pub(crate) proof fn lemma_six(
    p1: Seq<char>,
    p2: Seq<char>,
    p3: Seq<char>,
    p4: Seq<char>,
    p5: Seq<char>,
    p6: Seq<char>,
)
    ensures
        ({
            let q = seq!['"'];
            text::joined(seq![p1, p2, p3, p4, p5, p6], q) == p1 + q + p2 + q + p3 + q + p4 + q + p5
                + q + p6
        }),
{
    let q = seq!['"'];
    let s6 = seq![p1, p2, p3, p4, p5, p6];
    let s5 = seq![p1, p2, p3, p4, p5];
    let s4 = seq![p1, p2, p3, p4];
    let s3 = seq![p1, p2, p3];
    let s2 = seq![p1, p2];
    let s1 = seq![p1];
    assert(s6.drop_last() =~= s5);
    assert(s5.drop_last() =~= s4);
    assert(s4.drop_last() =~= s3);
    assert(s3.drop_last() =~= s2);
    assert(s2.drop_last() =~= s1);
    assert(text::joined(s1, q) == p1);
    assert(text::joined(s2, q) == p1 + q + p2);
    assert(text::joined(s3, q) == text::joined(s2, q) + q + p3);
    assert(text::joined(s4, q) == text::joined(s3, q) + q + p4);
    assert(text::joined(s5, q) == text::joined(s4, q) + q + p5);
    assert(text::joined(s6, q) == text::joined(s5, q) + q + p6);
}

/// Law: the model of a rule holds each part under its own name, and a list's
/// holds them in order.
pub proof fn law_rule_model(v: Seq<InstalledRule>, i: int)
    requires
        0 <= i < v.len(),
    ensures
        rule_views(v).len() == v.len(),
        rule_views(v)[i].namespace == v[i].namespace@,
        rule_views(v)[i].id == v[i].id@,
        rule_views(v)[i].generation is Some <==> v[i].generation is Some,
        v[i].generation matches Some(g) ==> rule_views(v)[i].generation == Some(g@),
{
}

} // verus!
