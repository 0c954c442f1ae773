//! The canonical serialization of a parsed spec, and its fingerprint.

use crate::digest::{fingerprint, fingerprint_of, utf8};
use crate::json::{
    json_array, json_decimal, json_list, json_null, json_plain_char, json_str, lemma_json_escape_plain, json_str_array, lemma_json_list_push,
    push_decimal, push_json_str, push_null, push_str, push_str_array,
};
use crate::spec::ast::{
    strings_view, Fixture, FixtureView, Objective, ObjectiveKind, ObjectiveView, Spec, SpecView,
};
use crate::witness::{Kind, Witness, WitnessView};
use crate::text::push_char;
use vstd::prelude::*;

verus! {

pub open spec fn fixture_json(f: FixtureView) -> Seq<char> {
    "{\"body\":"@ + json_str(f.body) + ",\"name\":"@ + json_str(f.name) + "}"@
}

pub open spec fn objective_kind_text(k: ObjectiveKind) -> Seq<char> {
    match k {
        ObjectiveKind::Minimise => "minimise"@,
        ObjectiveKind::Maximise => "maximise"@,
    }
}

/// Each objective kind is written under its own name, `minimise` or
/// `maximise`; the two names differ, and each stands in the JSON as itself
/// between quotes.
pub proof fn law_objective_kind_names(k: ObjectiveKind)
    ensures
        objective_kind_text(ObjectiveKind::Minimise) == seq!['m', 'i', 'n', 'i', 'm', 'i', 's', 'e'],
        objective_kind_text(ObjectiveKind::Maximise) == seq!['m', 'a', 'x', 'i', 'm', 'i', 's', 'e'],
        objective_kind_text(ObjectiveKind::Minimise) != objective_kind_text(ObjectiveKind::Maximise),
        json_str(objective_kind_text(k)) == seq!['"'] + objective_kind_text(k) + seq!['"'],
{
    reveal_strlit("minimise");
    reveal_strlit("maximise");
    assert(objective_kind_text(ObjectiveKind::Minimise) =~= seq!['m', 'i', 'n', 'i', 'm', 'i', 's', 'e']);
    assert(objective_kind_text(ObjectiveKind::Maximise) =~= seq!['m', 'a', 'x', 'i', 'm', 'i', 's', 'e']);
    assert(objective_kind_text(ObjectiveKind::Minimise)[1] != objective_kind_text(
        ObjectiveKind::Maximise,
    )[1]);
    let t = objective_kind_text(k);
    assert forall|i: int| 0 <= i < t.len() implies json_plain_char(#[trigger] t[i]) by {}
    lemma_json_escape_plain(t);
}

/// Objectives of different kinds are serialized differently: the canonical
/// JSON of an objective determines whether it minimises or maximises.
pub proof fn law_objective_json_kind(a: ObjectiveView, b: ObjectiveView)
    ensures
        objective_json(a) == objective_json(b) ==> a.kind == b.kind,
{
    law_objective_kind_names(a.kind);
    law_objective_kind_names(b.kind);
    reveal_strlit("{\"kind\":");
    let p = "{\"kind\":"@;
    assert(p.len() == 8);
    if a.kind != b.kind {
        let ta = objective_kind_text(a.kind);
        let tb = objective_kind_text(b.kind);
        assert(objective_json(a)[10] == ta[1]);
        assert(objective_json(b)[10] == tb[1]);
        assert(ta[1] != tb[1]);
    }
}

pub open spec fn objective_json(o: ObjectiveView) -> Seq<char> {
    "{\"kind\":"@ + json_str(objective_kind_text(o.kind)) + ",\"name\":"@ + json_str(o.name)
        + ",\"target\":"@ + match o.target {
        Some(d) => json_decimal(d),
        None => json_null(),
    } + "}"@
}

pub open spec fn witness_json(w: WitnessView) -> Seq<char> {
    "{\"body\":"@ + json_str(w.body) + ",\"kind\":"@ + match w.kind {
        Kind::Hard => json_str("hard"@),
        Kind::Soft(_) => json_str("soft"@),
    } + ",\"name\":"@ + json_str(w.name) + ",\"weight\":"@ + match w.kind {
        Kind::Hard => json_null(),
        Kind::Soft(d) => json_decimal(d),
    } + "}"@
}

/// The canonical JSON of a spec: every field, keys sorted at every level, no
/// whitespace; a witness records its kind as `"hard"` or `"soft"` and its
/// weight (`null` when hard).
pub open spec fn spec_json(s: SpecView) -> Seq<char> {
    "{\"fixtures\":"@ + json_array(Seq::new(s.fixtures.len(), |i: int| fixture_json(s.fixtures[i])))
        + ",\"lang\":"@ + json_str(s.lang) + ",\"name\":"@ + json_str(s.name) + ",\"objectives\":"@
        + json_array(Seq::new(s.objectives.len(), |i: int| objective_json(s.objectives[i])))
        + ",\"runner\":"@ + json_str(s.runner) + ",\"runner_args\":"@ + json_str_array(
        s.runner_args,
    ) + ",\"targets\":"@ + json_str_array(s.targets) + ",\"witnesses\":"@ + json_array(
        Seq::new(s.witnesses.len(), |i: int| witness_json(s.witnesses[i])),
    ) + "}"@
}

/// The fingerprint of a spec: over the UTF-8 bytes of its canonical JSON.
pub open spec fn spec_fingerprint(s: SpecView) -> Seq<char> {
    fingerprint_of(utf8(spec_json(s)))
}

fn write_fixture(out: &mut String, f: &Fixture)
    ensures
        final(out)@ == old(out)@ + fixture_json(f@),
{
    push_str(out, "{\"body\":");
    push_json_str(out, f.body.as_str());
    push_str(out, ",\"name\":");
    push_json_str(out, f.name.as_str());
    push_str(out, "}");
    assert(final(out)@ =~= old(out)@ + fixture_json(f@));
}

fn write_objective(out: &mut String, o: &Objective)
    ensures
        final(out)@ == old(out)@ + objective_json(o@),
{
    push_str(out, "{\"kind\":");
    match o.kind {
        ObjectiveKind::Minimise => push_json_str(out, "minimise"),
        ObjectiveKind::Maximise => push_json_str(out, "maximise"),
    }
    push_str(out, ",\"name\":");
    push_json_str(out, o.name.as_str());
    push_str(out, ",\"target\":");
    match o.target {
        Some(d) => push_decimal(out, d),
        None => push_null(out),
    }
    push_str(out, "}");
    assert(final(out)@ =~= old(out)@ + objective_json(o@));
}

fn write_witness(out: &mut String, w: &Witness)
    ensures
        final(out)@ == old(out)@ + witness_json(w@),
{
    push_str(out, "{\"body\":");
    push_json_str(out, w.body.as_str());
    push_str(out, ",\"kind\":");
    match w.kind {
        Kind::Hard => push_json_str(out, "hard"),
        Kind::Soft(_) => push_json_str(out, "soft"),
    }
    push_str(out, ",\"name\":");
    push_json_str(out, w.name.as_str());
    push_str(out, ",\"weight\":");
    match w.kind {
        Kind::Hard => push_null(out),
        Kind::Soft(d) => push_decimal(out, d),
    }
    push_str(out, "}");
    assert(final(out)@ =~= old(out)@ + witness_json(w@));
}

fn write_fixtures(out: &mut String, v: &Vec<Fixture>)
    ensures
        final(out)@ == old(out)@ + json_array(Seq::new(v@.len(), |i: int| fixture_json(v@[i]@))),
{
    let ghost items = Seq::new(v@.len(), |i: int| fixture_json(v@[i]@));
    push_char(out, '[');
    let ghost start = out@;
    let n = v.len();
    let mut i: usize = 0;
    assert(items.take(0) =~= Seq::<Seq<char>>::empty());
    while i < n
        invariant
            n == v@.len(),
            i <= n,
            items == Seq::new(v@.len(), |i: int| fixture_json(v@[i]@)),
            out@ == start + json_list(items.take(i as int)),
        decreases n - i,
    {
        if i > 0 {
            push_char(out, ',');
        }
        write_fixture(out, &v[i]);
        proof {
            lemma_json_list_push(items.take(i as int), items[i as int]);
            assert(items.take(i as int).push(items[i as int]) =~= items.take(i + 1));
            assert(out@ =~= start + json_list(items.take(i + 1)));
        }
        i = i + 1;
    }
    assert(items.take(n as int) =~= items);
    push_char(out, ']');
    assert(final(out)@ =~= old(out)@ + json_array(items));
}

fn write_objectives(out: &mut String, v: &Vec<Objective>)
    ensures
        final(out)@ == old(out)@ + json_array(
            Seq::new(v@.len(), |i: int| objective_json(v@[i]@)),
        ),
{
    let ghost items = Seq::new(v@.len(), |i: int| objective_json(v@[i]@));
    push_char(out, '[');
    let ghost start = out@;
    let n = v.len();
    let mut i: usize = 0;
    assert(items.take(0) =~= Seq::<Seq<char>>::empty());
    while i < n
        invariant
            n == v@.len(),
            i <= n,
            items == Seq::new(v@.len(), |i: int| objective_json(v@[i]@)),
            out@ == start + json_list(items.take(i as int)),
        decreases n - i,
    {
        if i > 0 {
            push_char(out, ',');
        }
        write_objective(out, &v[i]);
        proof {
            lemma_json_list_push(items.take(i as int), items[i as int]);
            assert(items.take(i as int).push(items[i as int]) =~= items.take(i + 1));
            assert(out@ =~= start + json_list(items.take(i + 1)));
        }
        i = i + 1;
    }
    assert(items.take(n as int) =~= items);
    push_char(out, ']');
    assert(final(out)@ =~= old(out)@ + json_array(items));
}

fn write_witnesses(out: &mut String, v: &Vec<Witness>)
    ensures
        final(out)@ == old(out)@ + json_array(Seq::new(v@.len(), |i: int| witness_json(v@[i]@))),
{
    let ghost items = Seq::new(v@.len(), |i: int| witness_json(v@[i]@));
    push_char(out, '[');
    let ghost start = out@;
    let n = v.len();
    let mut i: usize = 0;
    assert(items.take(0) =~= Seq::<Seq<char>>::empty());
    while i < n
        invariant
            n == v@.len(),
            i <= n,
            items == Seq::new(v@.len(), |i: int| witness_json(v@[i]@)),
            out@ == start + json_list(items.take(i as int)),
        decreases n - i,
    {
        if i > 0 {
            push_char(out, ',');
        }
        write_witness(out, &v[i]);
        proof {
            lemma_json_list_push(items.take(i as int), items[i as int]);
            assert(items.take(i as int).push(items[i as int]) =~= items.take(i + 1));
            assert(out@ =~= start + json_list(items.take(i + 1)));
        }
        i = i + 1;
    }
    assert(items.take(n as int) =~= items);
    push_char(out, ']');
    assert(final(out)@ =~= old(out)@ + json_array(items));
}

impl Spec {
    /// The canonical JSON of this spec (see `spec_json`).
    pub fn canonical_json(&self) -> (r: String)
        ensures
            r@ == spec_json(self@),
    {
        let mut out = String::new();
        push_str(&mut out, "{\"fixtures\":");
        write_fixtures(&mut out, &self.fixtures);
        push_str(&mut out, ",\"lang\":");
        push_json_str(&mut out, self.lang.as_str());
        push_str(&mut out, ",\"name\":");
        push_json_str(&mut out, self.name.as_str());
        push_str(&mut out, ",\"objectives\":");
        write_objectives(&mut out, &self.objectives);
        push_str(&mut out, ",\"runner\":");
        push_json_str(&mut out, self.runner.as_str());
        push_str(&mut out, ",\"runner_args\":");
        push_str_array(&mut out, &self.runner_args);
        push_str(&mut out, ",\"targets\":");
        push_str_array(&mut out, &self.targets);
        push_str(&mut out, ",\"witnesses\":");
        write_witnesses(&mut out, &self.witnesses);
        push_str(&mut out, "}");
        let ghost v = self@;
        assert(Seq::new(v.fixtures.len(), |i: int| fixture_json(v.fixtures[i])) =~= Seq::new(
            self.fixtures@.len(),
            |i: int| fixture_json(self.fixtures@[i]@),
        ));
        assert(Seq::new(v.objectives.len(), |i: int| objective_json(v.objectives[i])) =~= Seq::new(
            self.objectives@.len(),
            |i: int| objective_json(self.objectives@[i]@),
        ));
        assert(Seq::new(v.witnesses.len(), |i: int| witness_json(v.witnesses[i])) =~= Seq::new(
            self.witnesses@.len(),
            |i: int| witness_json(self.witnesses@[i]@),
        ));
        assert(strings_view(self.runner_args@) =~= Seq::new(
            self.runner_args@.len(),
            |i: int| self.runner_args@[i]@,
        ));
        assert(strings_view(self.targets@) =~= Seq::new(
            self.targets@.len(),
            |i: int| self.targets@[i]@,
        ));
        assert(out@ =~= spec_json(self@));
        out
    }

    /// The fingerprint of this spec: SHA-256 over its canonical JSON, as
    /// `"sha256:"` and 64 lowercase hex digits. Specs that parse to the same
    /// value have the same fingerprint.
    pub fn fingerprint(&self) -> (r: String)
        ensures
            r@ == spec_fingerprint(self@),
            r@.len() == 71,
    {
        let body = self.canonical_json();
        fingerprint(body.as_str().as_bytes())
    }
}

} // verus!
