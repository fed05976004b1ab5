//! Observe = fold of `M`, `M = ValueCtx → ValueCtx` (last write wins).
use vstd::prelude::*;
use crate::absval::{absval_view, lemma_vals_view, vals_view, AbsVal, AbsValV, entries_view};
use crate::ir::{empty_ctx, write_spec, CtxV, Field, Schema, ValueCtx, WireMeta};
use crate::strmap::{keys_of, sorted_keys, sorted_set, StrMap, StrSet};
use crate::text::views;

verus! {

/// One write into a `ValueCtx`. Unfold, layout, and fingers all emit these.
#[derive(Debug, PartialEq, Eq)]
pub enum Fact {
    Lit(String),
    Absent,
    Unknown,
    OneOf(Vec<String>),
    Array(Vec<Fact>),
    Record(StrMap<Fact>),
    Wire { pos: usize, len: usize },
}

/// The photo a fact leaves: a wire fact reads as Unknown.
pub open spec fn fact_abs_spec(f: Fact) -> AbsValV
    decreases f, 0nat,
{
    match f {
        Fact::Lit(s) => AbsValV::Known(s@),
        Fact::Absent => AbsValV::Absent,
        Fact::Unknown => AbsValV::Unknown,
        Fact::OneOf(vs) => AbsValV::OneOf(sorted_set(views(vs@))),
        Fact::Array(xs) => AbsValV::Array(facts_abs_spec(xs@)),
        Fact::Record(m) => {
            proof {
                m.lemma_pairs_decrease();
            }
            AbsValV::Record(fact_entries_spec(m.pairs()))
        },
        Fact::Wire { .. } => AbsValV::Unknown,
    }
}

/// The photos of a list of facts.
pub open spec fn facts_abs_spec(s: Seq<Fact>) -> Seq<AbsValV>
    decreases s, 0nat,
{
    if s.len() == 0 {
        Seq::empty()
    } else {
        facts_abs_spec(s.subrange(0, s.len() - 1)).push(fact_abs_spec(s[s.len() - 1]))
    }
}

/// The record photo of a list of named facts; the first entry for a name wins.
pub open spec fn fact_entries_spec(es: Seq<(String, Fact)>) -> Map<Seq<char>, AbsValV>
    decreases es, 0nat,
{
    if es.len() == 0 {
        Map::empty()
    } else {
        fact_entries_spec(es.subrange(1, es.len() as int)).insert(es[0].0@, fact_abs_spec(es[0].1))
    }
}

pub proof fn lemma_facts_abs(s: Seq<Fact>)
    ensures
        facts_abs_spec(s).len() == s.len(),
        forall|i: int| 0 <= i < s.len() ==> #[trigger] facts_abs_spec(s)[i] == fact_abs_spec(s[i]),
    decreases s.len(),
{
    if s.len() > 0 {
        lemma_facts_abs(s.subrange(0, s.len() - 1));
    }
}

proof fn lemma_fact_entries(out: Seq<(String, AbsVal)>, es: Seq<(String, Fact)>)
    requires
        out.len() == es.len(),
        forall|i: int| 0 <= i < out.len() ==> #[trigger] out[i].0@ == es[i].0@,
        forall|i: int| 0 <= i < out.len() ==> absval_view(#[trigger] out[i].1) == fact_abs_spec(es[i].1),
    ensures
        entries_view(out) == fact_entries_spec(es),
    decreases out.len(),
{
    if out.len() > 0 {
        let ro = out.subrange(1, out.len() as int);
        let re = es.subrange(1, es.len() as int);
        assert forall|i: int| 0 <= i < ro.len() implies #[trigger] ro[i].0@ == re[i].0@ by {
            assert(ro[i] == out[i + 1] && re[i] == es[i + 1]);
        }
        assert forall|i: int| 0 <= i < ro.len() implies absval_view(#[trigger] ro[i].1) == fact_abs_spec(re[i].1) by {
            assert(ro[i] == out[i + 1] && re[i] == es[i + 1]);
        }
        lemma_fact_entries(ro, re);
    }
}

/// The photo a fact leaves.
pub fn fact_abs(f: &Fact) -> (r: AbsVal)
    ensures
        absval_view(r) == fact_abs_spec(*f),
    decreases f, 0nat,
{
    match f {
        Fact::Lit(s) => AbsVal::Known(s.clone()),
        Fact::Absent => AbsVal::Absent,
        Fact::Unknown => AbsVal::Unknown,
        Fact::OneOf(vs) => AbsVal::OneOf(StrSet::from_strings(vs)),
        Fact::Array(xs) => {
            proof {
                assert forall|j: int| 0 <= j < xs.len() implies #[trigger] decreases_to!(*f => xs@[j]) by {
                    assert(decreases_to!(*xs => xs@[j]));
                }
            }
            let mut out: Vec<AbsVal> = Vec::new();
            let mut i: usize = 0;
            while i < xs.len()
                invariant
                    forall|j: int| 0 <= j < xs.len() ==> #[trigger] decreases_to!(*f => xs@[j]),
                    i <= xs@.len(),
                    out@.len() == i,
                    forall|j: int| 0 <= j < i ==> absval_view(#[trigger] out@[j]) == fact_abs_spec(xs@[j]),
                decreases xs.len() - i,
            {
                let c = fact_abs(&xs[i]);
                out.push(c);
                i = i + 1;
            }
            proof {
                lemma_vals_view(out@);
                lemma_facts_abs(xs@);
                assert(vals_view(out@) =~= facts_abs_spec(xs@));
            }
            AbsVal::Array(out)
        },
        Fact::Record(m) => {
            let es = m.entries();
            proof {
                m.lemma_pairs_decrease();
                assert forall|j: int| 0 <= j < es@.len() implies #[trigger] decreases_to!(*f => es@[j].1) by {
                    assert(decreases_to!(es@ => es@[j]));
                }
            }
            let mut out: Vec<(String, AbsVal)> = Vec::new();
            let mut i: usize = 0;
            while i < es.len()
                invariant
                    forall|j: int| 0 <= j < es@.len() ==> #[trigger] decreases_to!(*f => es@[j].1),
                    i <= es@.len(),
                    es@ == m.pairs(),
                    sorted_keys(keys_of(es@)),
                    out@.len() == i,
                    forall|j: int| 0 <= j < i ==> #[trigger] out@[j].0 == es@[j].0,
                    forall|j: int| 0 <= j < i ==> absval_view(#[trigger] out@[j].1) == fact_abs_spec(es@[j].1),
                decreases es.len() - i,
            {
                let k = es[i].0.clone();
                let x = fact_abs(&es[i].1);
                out.push((k, x));
                i = i + 1;
            }
            proof {
                assert(keys_of(out@) =~= keys_of(es@));
                lemma_fact_entries(out@, es@);
            }
            AbsVal::Record(StrMap::from_sorted(out))
        },
        Fact::Wire { .. } => AbsVal::Unknown,
    }
}

/// `M` for one fact: a wire fact records geometry, any other writes a value.
pub open spec fn put_spec(c: CtxV, field: Seq<char>, f: Fact) -> CtxV {
    match f {
        Fact::Wire { pos, len } => CtxV {
            wire: c.wire.insert(field, WireMeta { pos: Some(pos), len: Some(len) }),
            ..c
        },
        _ => write_spec(c, field, fact_abs_spec(f)),
    }
}

impl ValueCtx {
    /// Apply one fact. This *is* `M`.
    pub fn put(self, field: &str, fact: Fact) -> (r: Self)
        ensures
            r@ == put_spec(self@, field@, fact),
    {
        self.put_ref(field, &fact)
    }

    /// Apply one fact held elsewhere.
    pub fn put_ref(self, field: &str, fact: &Fact) -> (r: Self)
        ensures
            r@ == put_spec(self@, field@, *fact),
    {
        match fact {
            Fact::Wire { pos, len } => self.with_wire(field, *pos, *len),
            _ => {
                let v = fact_abs(fact);
                self.write_value(field, v)
            },
        }
    }
}

/// The state after one fact per field, folded in field order.
pub open spec fn observe_spec(fields: Seq<Field>, facts: Seq<Fact>) -> CtxV
    decreases facts.len(),
{
    if facts.len() == 0 || fields.len() == 0 {
        empty_ctx()
    } else {
        put_spec(
            observe_spec(fields.drop_last(), facts.drop_last()),
            fields.last().name@,
            facts.last(),
        )
    }
}

/// Fold one `Fact` per Schema field. `read` uses `field.locator` (or the
/// field name) however the source is seated: layout, live value, test.
/// Whatever `read` returns for each field is what the state holds.
pub fn observe<F: Fn(&Field) -> Fact>(schema: &Schema, read: F) -> (r: ValueCtx)
    requires
        forall|f: &Field| call_requires(read, (f,)),
    ensures
        exists|facts: Seq<Fact>|
            facts.len() == schema.fields@.len() && (forall|i: int|
                0 <= i < facts.len() ==> call_ensures(read, (&schema.fields@[i],), #[trigger] facts[i]))
                && r@ == observe_spec(schema.fields@, facts),
{
    let mut ctx = ValueCtx::default();
    let ghost mut facts: Seq<Fact> = Seq::empty();
    let mut i: usize = 0;
    while i < schema.fields.len()
        invariant
            forall|f: &Field| call_requires(read, (f,)),
            i <= schema.fields@.len(),
            facts.len() == i,
            forall|j: int| 0 <= j < i ==> call_ensures(read, (&schema.fields@[j],), #[trigger] facts[j]),
            ctx@ == observe_spec(schema.fields@.take(i as int), facts),
        decreases schema.fields.len() - i,
    {
        let fact = read(&schema.fields[i]);
        let ghost fv = fact;
        ctx = ctx.put(schema.fields[i].name.as_str(), fact);
        proof {
            let fs = schema.fields@.take(i + 1);
            assert(fs.drop_last() =~= schema.fields@.take(i as int));
            assert(facts.push(fv).drop_last() =~= facts);
            facts = facts.push(fv);
        }
        i = i + 1;
    }
    assert(schema.fields@.take(schema.fields@.len() as int) =~= schema.fields@);
    ctx
}


/// The mathematical form of a wire fragment: its extent and its spans
/// `(field, relative pos, len)`.
pub struct FragV {
    pub extent: nat,
    pub spans: Seq<(Seq<char>, nat, nat)>,
}

/// A relative, sequential wire observation.
///
/// Fragments compose without knowing where their caller will place them. The
/// right fragment is shifted by the left fragment's extent; observing the
/// finished fragment seats those relative positions on the wire.
#[derive(Debug, PartialEq, Eq)]
pub struct WireFragment {
    extent: usize,
    fields: Vec<(String, usize, usize)>,
}

/// Each span lies within the extent.
pub open spec fn spans_within(f: FragV) -> bool {
    forall|i: int| 0 <= i < f.spans.len() ==> #[trigger] f.spans[i].1 + f.spans[i].2 <= f.extent
}

/// The spans shifted right by `d`.
pub open spec fn shift_spans(sp: Seq<(Seq<char>, nat, nat)>, d: nat) -> Seq<(Seq<char>, nat, nat)> {
    sp.map_values(|t: (Seq<char>, nat, nat)| (t.0, t.1 + d, t.2))
}

/// Sequential composition: the right fragment begins where the left ends.
pub open spec fn concat_spec(a: FragV, b: FragV) -> FragV {
    FragV { extent: a.extent + b.extent, spans: a.spans + shift_spans(b.spans, a.extent) }
}

/// The identity fragment.
pub open spec fn empty_frag() -> FragV {
    FragV { extent: 0, spans: Seq::empty() }
}

/// The wire facts of `sp` seated at `origin`, folded over `c` in order.
pub open spec fn seat_spec(c: CtxV, sp: Seq<(Seq<char>, nat, nat)>, origin: nat) -> CtxV
    decreases sp.len(),
{
    if sp.len() == 0 {
        c
    } else {
        let t = sp.last();
        let d = seat_spec(c, sp.drop_last(), origin);
        CtxV {
            wire: d.wire.insert(t.0, WireMeta { pos: Some((origin + t.1) as usize), len: Some(t.2 as usize) }),
            ..d
        }
    }
}

impl WireFragment {
    #[verifier::type_invariant]
    spec fn within(self) -> bool {
        forall|i: int| 0 <= i < self.fields@.len() ==> #[trigger] self.fields@[i].1 + self.fields@[i].2 <= self.extent
    }

    /// The fragment's extent and spans.
    pub closed spec fn frag(self) -> FragV {
        FragV {
            extent: self.extent as nat,
            spans: self.fields@.map_values(|t: (String, usize, usize)| (t.0@, t.1 as nat, t.2 as nat)),
        }
    }

}

impl Clone for WireFragment {
    /// A copy with the same extent and spans.
    fn clone(&self) -> (r: Self)
        ensures
            r.frag() == self.frag(),
    {
        proof {
            use_type_invariant(self);
        }
        let mut fields: Vec<(String, usize, usize)> = Vec::new();
        let mut i: usize = 0;
        while i < self.fields.len()
            invariant
                i <= self.fields@.len(),
                fields@.len() == i,
                forall|j: int| 0 <= j < i ==> (#[trigger] fields@[j]).0@ == self.fields@[j].0@ && fields@[j].1 == self.fields@[j].1
                    && fields@[j].2 == self.fields@[j].2,
            decreases self.fields.len() - i,
        {
            let t = &self.fields[i];
            fields.push((t.0.clone(), t.1, t.2));
            i = i + 1;
        }
        let r = WireFragment { extent: self.extent, fields };
        assert(r.frag().spans =~= self.frag().spans);
        r
    }
}

impl WireFragment {
    /// The identity fragment.
    pub fn empty() -> (r: Self)
        ensures
            r.frag() == empty_frag(),
    {
        let r = WireFragment { extent: 0, fields: Vec::new() };
        assert(r.frag().spans =~= Seq::<(Seq<char>, nat, nat)>::empty());
        r
    }

    /// One emitted field occupying `len` wire units.
    pub fn emit(field: &str, len: usize) -> (r: Self)
        ensures
            r.frag() == (FragV { extent: len as nat, spans: seq![(field@, 0nat, len as nat)] }),
    {
        let mut fields = Vec::new();
        fields.push((field.to_owned(), 0usize, len));
        let r = WireFragment { extent: len, fields };
        assert(r.frag().spans =~= seq![(field@, 0nat, len as nat)]);
        r
    }

    /// Sequential composition. The right fragment begins after the left one.
    pub fn concat(self, right: Self) -> (r: Self)
        requires
            self.frag().extent + right.frag().extent <= usize::MAX,
        ensures
            r.frag() == concat_spec(self.frag(), right.frag()),
    {
        proof {
            use_type_invariant(&self);
            use_type_invariant(&right);
        }
        let shift = self.extent;
        let ghost lv = self.frag();
        let ghost rv = right.frag();
        let mut fields = self.fields;
        let ghost left_fields = fields@;
        let mut i: usize = 0;
        while i < right.fields.len()
            invariant
                i <= right.fields@.len(),
                shift == self.extent,
                shift + right.extent <= usize::MAX,
                forall|j: int| 0 <= j < right.fields@.len() ==> #[trigger] right.fields@[j].1 + right.fields@[j].2 <= right.extent,
                fields@.len() == left_fields.len() + i,
                left_fields == self.fields@,
                forall|j: int| 0 <= j < left_fields.len() ==> #[trigger] left_fields[j].1 + left_fields[j].2 <= shift,
                forall|j: int| 0 <= j < left_fields.len() ==> #[trigger] fields@[j] == left_fields[j],
                forall|j: int| 0 <= j < i ==> #[trigger] fields@[left_fields.len() + j] == (right.fields@[j].0, (right.fields@[j].1 + shift) as usize, right.fields@[j].2),
            decreases right.fields.len() - i,
        {
            let (name, pos, len) = (&right.fields[i].0, right.fields[i].1, right.fields[i].2);
            fields.push((name.clone(), pos + shift, len));
            i = i + 1;
        }
        proof {
            assert forall|j: int| 0 <= j < fields@.len() implies #[trigger] fields@[j].1 + fields@[j].2 <= shift + right.extent by {
                if j >= left_fields.len() {
                    let k = j - left_fields.len();
                    assert(fields@[left_fields.len() + k] == (right.fields@[k].0, (right.fields@[k].1 + shift) as usize, right.fields@[k].2));
                }
            }
        }
        let r = WireFragment { extent: shift + right.extent, fields };
        proof {
            let want = concat_spec(lv, rv).spans;
            assert(r.frag().spans.len() == want.len());
            assert forall|j: int| 0 <= j < want.len() implies #[trigger] r.frag().spans[j] == want[j] by {
                if j >= left_fields.len() {
                    let k = j - left_fields.len();
                    assert(r.fields@[left_fields.len() + k] == (right.fields@[k].0, (right.fields@[k].1 + shift) as usize, right.fields@[k].2));
                }
            }
            assert(r.frag().spans =~= want);
        }
        r
    }

    /// The fragment's length in wire units.
    pub fn extent(&self) -> (r: usize)
        ensures
            r == self.frag().extent,
    {
        self.extent
    }

    /// A fragment's extent fits a `usize`: composing with the identity
    /// fragment, and observing at origin 0, are always allowed.
    pub proof fn lemma_extent_fits(&self)
        ensures
            self.frag().extent <= usize::MAX,
            0 + self.frag().extent <= usize::MAX,
            self.frag().extent + 0 <= usize::MAX,
    {
    }

    /// Lower the relative fragment to absolute wire facts at `origin`.
    pub fn observe(self, origin: usize) -> (r: ValueCtx)
        requires
            origin + self.frag().extent <= usize::MAX,
        ensures
            r@ == seat_spec(empty_ctx(), self.frag().spans, origin as nat),
    {
        proof {
            use_type_invariant(&self);
        }
        let ghost sp = self.frag().spans;
        let mut ctx = ValueCtx::default();
        let mut i: usize = 0;
        while i < self.fields.len()
            invariant
                i <= self.fields@.len(),
                sp == self.frag().spans,
                origin + self.extent <= usize::MAX,
                forall|j: int| 0 <= j < self.fields@.len() ==> #[trigger] self.fields@[j].1 + self.fields@[j].2 <= self.extent,
                ctx@ == seat_spec(empty_ctx(), sp.take(i as int), origin as nat),
            decreases self.fields.len() - i,
        {
            let name = self.fields[i].0.as_str();
            let pos = self.fields[i].1;
            let len = self.fields[i].2;
            ctx = ctx.with_wire(name, origin + pos, len);
            proof {
                let now = sp.take(i + 1);
                assert(now.drop_last() =~= sp.take(i as int));
                assert(now.last() == (name@, pos as nat, len as nat));
            }
            i = i + 1;
        }
        assert(sp.take(self.fields@.len() as int) =~= sp);
        ctx
    }
}

impl Default for WireFragment {
    fn default() -> (r: Self)
        ensures
            r.frag() == empty_frag(),
    {
        WireFragment::empty()
    }
}

impl Clone for Fact {
    fn clone(&self) -> Self {
        copy_fact(self)
    }
}

/// A copy of a fact, part by part.
fn copy_fact(f: &Fact) -> Fact
    decreases f, 0nat,
{
    match f {
        Fact::Lit(s) => Fact::Lit(s.clone()),
        Fact::Absent => Fact::Absent,
        Fact::Unknown => Fact::Unknown,
        Fact::OneOf(vs) => Fact::OneOf(vs.clone()),
        Fact::Array(xs) => {
            proof {
                assert forall|j: int| 0 <= j < xs@.len() implies #[trigger] decreases_to!(*f => xs@[j]) by {
                    assert(decreases_to!(*xs => xs@[j]));
                }
            }
            let mut out: Vec<Fact> = Vec::new();
            let mut i: usize = 0;
            while i < xs.len()
                invariant
                    i <= xs@.len(),
                    forall|j: int| 0 <= j < xs@.len() ==> #[trigger] decreases_to!(*f => xs@[j]),
                decreases xs.len() - i,
            {
                out.push(copy_fact(&xs[i]));
                i = i + 1;
            }
            Fact::Array(out)
        },
        Fact::Record(m) => {
            let es = m.entries();
            proof {
                m.lemma_pairs_decrease();
                assert forall|j: int| 0 <= j < es@.len() implies #[trigger] decreases_to!(*f => es@[j].1) by {
                    assert(decreases_to!(es@ => es@[j]));
                }
            }
            let mut out: Vec<(String, Fact)> = Vec::new();
            let mut i: usize = 0;
            while i < es.len()
                invariant
                    i <= es@.len(),
                    sorted_keys(keys_of(es@)),
                    out@.len() == i,
                    forall|j: int| 0 <= j < i ==> #[trigger] out@[j].0 == es@[j].0,
                    forall|j: int| 0 <= j < es@.len() ==> #[trigger] decreases_to!(*f => es@[j].1),
                decreases es.len() - i,
            {
                let k = es[i].0.clone();
                let x = copy_fact(&es[i].1);
                out.push((k, x));
                i = i + 1;
            }
            proof {
                assert(keys_of(out@) =~= keys_of(es@));
            }
            Fact::Record(StrMap::from_sorted(out))
        },
        Fact::Wire { pos, len } => Fact::Wire { pos: *pos, len: *len },
    }
}

} // verus!
