use crate::supported_term::ParseSupportedError;
use crate::supported_term::SupportedTerm;
use crate::supported_term::TermView;
use crate::supported_term::lemma_seq_term_view;
use crate::supported_term::seq_term_view;
use crate::supported_term::term_view;
use vstd::prelude::*;
use vstd::string::StrSliceExecFns;

verus! {

/// A host-runtime value as this library observes it: the kinds the host can
/// hand over, with every payload already read out as a plain value. A term
/// of any other host kind (a function, a process id, a port, a float, a map)
/// is `Opaque` and cannot be stored.
#[derive(Debug, PartialEq)]
pub enum HostTerm {
    Number(i64),
    AtomName(String),
    Tuple(Vec<HostTerm>),
    List(Vec<HostTerm>),
    Binary(String),
    Opaque,
}

/// Rendering a stored value back into a host term failed.
#[derive(Debug, PartialEq, Eq)]
pub enum EncodeError {
    AtomTooLong,
}

/// The longest atom name the host accepts.
pub const ATOM_MAX_LEN: usize = 255;

/// Mathematical model of a [`HostTerm`].
pub enum HostView {
    Number(int),
    AtomName(Seq<char>),
    Tuple(Seq<HostView>),
    List(Seq<HostView>),
    Binary(Seq<char>),
    Opaque,
}

pub open spec fn host_view(t: HostTerm) -> HostView
    decreases t,
{
    match t {
        HostTerm::Number(i) => HostView::Number(i as int),
        HostTerm::AtomName(s) => HostView::AtomName(s@),
        HostTerm::Tuple(v) => HostView::Tuple(seq_host_view(v@)),
        HostTerm::List(v) => HostView::List(seq_host_view(v@)),
        HostTerm::Binary(s) => HostView::Binary(s@),
        HostTerm::Opaque => HostView::Opaque,
    }
}

pub open spec fn seq_host_view(s: Seq<HostTerm>) -> Seq<HostView>
    decreases s,
{
    if s.len() == 0 {
        Seq::empty()
    } else {
        seq![host_view(s[0])] + seq_host_view(s.drop_first())
    }
}

impl View for HostTerm {
    type V = HostView;

    open spec fn view(&self) -> HostView {
        host_view(*self)
    }
}

pub proof fn lemma_seq_host_view(s: Seq<HostTerm>)
    ensures
        seq_host_view(s).len() == s.len(),
        forall|i: int| 0 <= i < s.len() ==> seq_host_view(s)[i] == host_view(#[trigger] s[i]),
    decreases s,
{
    if s.len() > 0 {
        lemma_seq_host_view(s.drop_first());
        assert forall|i: int| 0 <= i < s.len() implies seq_host_view(s)[i] == host_view(
            #[trigger] s[i],
        ) by {
            if i > 0 {
                assert(s.drop_first()[i - 1] == s[i]);
            }
        }
    }
}

/// What a host term parses to: numbers become integers, atom names atoms,
/// tuples and lists recurse over their elements, binaries become bitstrings.
/// An opaque term, or a composite holding one anywhere, parses to nothing.
pub open spec fn parse_host(h: HostView) -> Option<TermView>
    decreases h,
{
    match h {
        HostView::Number(i) => Some(TermView::Integer(i)),
        HostView::AtomName(s) => Some(TermView::Atom(s)),
        HostView::Tuple(es) => match parse_host_seq(es) {
            Some(ts) => Some(TermView::Tuple(ts)),
            None => None,
        },
        HostView::List(es) => match parse_host_seq(es) {
            Some(ts) => Some(TermView::List(ts)),
            None => None,
        },
        HostView::Binary(s) => Some(TermView::Bitstring(s)),
        HostView::Opaque => None,
    }
}

pub open spec fn parse_host_seq(s: Seq<HostView>) -> Option<Seq<TermView>>
    decreases s,
{
    if s.len() == 0 {
        Some(Seq::empty())
    } else {
        match (parse_host(s[0]), parse_host_seq(s.drop_first())) {
            (Some(t), Some(ts)) => Some(seq![t] + ts),
            _ => None,
        }
    }
}

pub proof fn lemma_parse_host_seq(s: Seq<HostView>)
    ensures
        (parse_host_seq(s) is Some) <==> (forall|i: int|
            0 <= i < s.len() ==> parse_host(#[trigger] s[i]) is Some),
        parse_host_seq(s) is Some ==> parse_host_seq(s).unwrap().len() == s.len(),
        parse_host_seq(s) is Some ==> forall|i: int|
            0 <= i < s.len() ==> parse_host_seq(s).unwrap()[i] == parse_host(
                #[trigger] s[i],
            ).unwrap(),
    decreases s,
{
    if s.len() > 0 {
        lemma_parse_host_seq(s.drop_first());
        if parse_host_seq(s) is Some {
            assert forall|i: int| 0 <= i < s.len() implies parse_host(#[trigger] s[i]) is Some by {
                if i > 0 {
                    assert(s.drop_first()[i - 1] == s[i]);
                }
            }
            assert forall|i: int|
                0 <= i < s.len() implies parse_host_seq(s).unwrap()[i] == parse_host(
                #[trigger] s[i],
            ).unwrap() by {
                if i > 0 {
                    assert(s.drop_first()[i - 1] == s[i]);
                }
            }
        } else {
            if forall|i: int| 0 <= i < s.len() ==> parse_host(#[trigger] s[i]) is Some {
                assert(parse_host(s[0]) is Some);
                assert forall|i: int|
                    0 <= i < s.drop_first().len() implies parse_host(
                    #[trigger] s.drop_first()[i],
                ) is Some by {
                    assert(s.drop_first()[i] == s[i + 1]);
                }
                assert(false);
            }
        }
    }
}

/// What a stored value renders back to in the host's value space.
pub open spec fn render_host(t: TermView) -> HostView
    decreases t,
{
    match t {
        TermView::Integer(i) => HostView::Number(i),
        TermView::Atom(s) => HostView::AtomName(s),
        TermView::Tuple(ts) => HostView::Tuple(render_host_seq(ts)),
        TermView::List(ts) => HostView::List(render_host_seq(ts)),
        TermView::Bitstring(s) => HostView::Binary(s),
    }
}

pub open spec fn render_host_seq(ts: Seq<TermView>) -> Seq<HostView>
    decreases ts,
{
    if ts.len() == 0 {
        Seq::empty()
    } else {
        seq![render_host(ts[0])] + render_host_seq(ts.drop_first())
    }
}

/// Every atom name in the value fits within the host's atom length limit.
pub open spec fn atoms_ok(t: TermView) -> bool
    decreases t,
{
    match t {
        TermView::Atom(s) => s.len() <= ATOM_MAX_LEN,
        TermView::Tuple(ts) => atoms_ok_seq(ts),
        TermView::List(ts) => atoms_ok_seq(ts),
        _ => true,
    }
}

pub open spec fn atoms_ok_seq(ts: Seq<TermView>) -> bool
    decreases ts,
{
    if ts.len() == 0 {
        true
    } else {
        atoms_ok(ts[0]) && atoms_ok_seq(ts.drop_first())
    }
}

impl SupportedTerm {
    /// Parse a host term into a storable value; exactly the opaque-free host
    /// terms parse, and one opaque element anywhere fails the whole value.
    pub fn try_from(term: &HostTerm) -> (r: Result<SupportedTerm, ParseSupportedError>)
        ensures
            match r {
                Ok(t) => parse_host(term@) == Some(t@),
                Err(e) => {
                    &&& parse_host(term@) is None
                    &&& e == ParseSupportedError::UnsupportedType
                },
            },
        decreases *term,
    {
        match term {
            HostTerm::Number(i) => Ok(SupportedTerm::Integer(*i)),
            HostTerm::AtomName(s) => Ok(SupportedTerm::Atom(s.clone())),
            HostTerm::Tuple(es) => match try_from_elems(es) {
                Ok(out) => Ok(SupportedTerm::Tuple(out)),
                Err(e) => Err(e),
            },
            HostTerm::List(es) => match try_from_elems(es) {
                Ok(out) => Ok(SupportedTerm::List(out)),
                Err(e) => Err(e),
            },
            HostTerm::Binary(s) => Ok(SupportedTerm::Bitstring(s.clone())),
            HostTerm::Opaque => Err(ParseSupportedError::UnsupportedType),
        }
    }

    /// Render a stored value back into a host term. Fails exactly when some
    /// atom name exceeds the host's limit; no substitute value is produced.
    pub fn encode(&self) -> (r: Result<HostTerm, EncodeError>)
        ensures
            match r {
                Ok(h) => atoms_ok(self@) && h@ == render_host(self@),
                Err(e) => {
                    &&& !atoms_ok(self@)
                    &&& e == EncodeError::AtomTooLong
                },
            },
        decreases *self,
    {
        match self {
            SupportedTerm::Integer(i) => Ok(HostTerm::Number(*i)),
            SupportedTerm::Atom(s) => {
                if s.unicode_len() <= ATOM_MAX_LEN {
                    Ok(HostTerm::AtomName(s.clone()))
                } else {
                    Err(EncodeError::AtomTooLong)
                }
            },
            SupportedTerm::Tuple(ts) => match encode_elems(ts) {
                Ok(out) => Ok(HostTerm::Tuple(out)),
                Err(e) => Err(e),
            },
            SupportedTerm::List(ts) => match encode_elems(ts) {
                Ok(out) => Ok(HostTerm::List(out)),
                Err(e) => Err(e),
            },
            SupportedTerm::Bitstring(s) => Ok(HostTerm::Binary(s.clone())),
        }
    }
}

fn try_from_elems(es: &Vec<HostTerm>) -> (r: Result<Vec<SupportedTerm>, ParseSupportedError>)
    ensures
        match r {
            Ok(out) => parse_host_seq(seq_host_view(es@)) == Some(seq_term_view(out@)),
            Err(e) => {
                &&& parse_host_seq(seq_host_view(es@)) is None
                &&& e == ParseSupportedError::UnsupportedType
            },
        },
    decreases es@,
{
    proof {
        lemma_seq_host_view(es@);
        lemma_parse_host_seq(seq_host_view(es@));
    }
    let mut out: Vec<SupportedTerm> = Vec::new();
    let mut i: usize = 0;
    while i < es.len()
        invariant
            i <= es@.len(),
            out@.len() == i,
            seq_host_view(es@).len() == es@.len(),
            forall|j: int|
                0 <= j < es@.len() ==> seq_host_view(es@)[j] == host_view(#[trigger] es@[j]),
            forall|j: int| 0 <= j < i ==> parse_host(#[trigger] seq_host_view(es@)[j]) is Some,
            forall|j: int|
                0 <= j < i ==> term_view(#[trigger] out@[j]) == parse_host(
                    seq_host_view(es@)[j],
                ).unwrap(),
        decreases es@.len() - i,
    {
        match SupportedTerm::try_from(&es[i]) {
            Ok(t) => {
                out.push(t);
                i = i + 1;
            },
            Err(e) => {
                proof {
                    lemma_parse_host_seq(seq_host_view(es@));
                }
                return Err(e);
            },
        }
    }
    proof {
        let sv = seq_host_view(es@);
        assert forall|j: int| 0 <= j < sv.len() implies parse_host(#[trigger] sv[j]) is Some by {}
        lemma_parse_host_seq(sv);
        lemma_seq_term_view(out@);
        assert forall|j: int|
            0 <= j < sv.len() implies parse_host_seq(sv).unwrap()[j] == seq_term_view(
            out@,
        )[j] by {
            assert(seq_term_view(out@)[j] == term_view(out@[j]));
        }
        assert(parse_host_seq(sv).unwrap() =~= seq_term_view(out@));
    }
    Ok(out)
}

fn encode_elems(ts: &Vec<SupportedTerm>) -> (r: Result<Vec<HostTerm>, EncodeError>)
    ensures
        match r {
            Ok(out) => {
                &&& atoms_ok_seq(seq_term_view(ts@))
                &&& seq_host_view(out@) == render_host_seq(seq_term_view(ts@))
            },
            Err(e) => {
                &&& !atoms_ok_seq(seq_term_view(ts@))
                &&& e == EncodeError::AtomTooLong
            },
        },
    decreases ts@,
{
    proof {
        lemma_seq_term_view(ts@);
        lemma_atoms_ok_seq(seq_term_view(ts@));
        lemma_render_host_seq(seq_term_view(ts@));
    }
    let mut out: Vec<HostTerm> = Vec::new();
    let mut i: usize = 0;
    while i < ts.len()
        invariant
            i <= ts@.len(),
            out@.len() == i,
            seq_term_view(ts@).len() == ts@.len(),
            forall|j: int|
                0 <= j < ts@.len() ==> seq_term_view(ts@)[j] == term_view(#[trigger] ts@[j]),
            forall|j: int| 0 <= j < i ==> atoms_ok(#[trigger] seq_term_view(ts@)[j]),
            forall|j: int|
                0 <= j < i ==> host_view(#[trigger] out@[j]) == render_host(
                    seq_term_view(ts@)[j],
                ),
        decreases ts@.len() - i,
    {
        match ts[i].encode() {
            Ok(h) => {
                out.push(h);
                i = i + 1;
            },
            Err(e) => {
                proof {
                    lemma_atoms_ok_seq(seq_term_view(ts@));
                }
                return Err(e);
            },
        }
    }
    proof {
        let tv = seq_term_view(ts@);
        assert forall|j: int| 0 <= j < tv.len() implies atoms_ok(#[trigger] tv[j]) by {}
        lemma_atoms_ok_seq(tv);
        lemma_render_host_seq(tv);
        lemma_seq_host_view(out@);
        assert forall|j: int|
            0 <= j < tv.len() implies seq_host_view(out@)[j] == render_host_seq(tv)[j] by {
            assert(seq_host_view(out@)[j] == host_view(out@[j]));
        }
        assert(seq_host_view(out@) =~= render_host_seq(tv));
    }
    Ok(out)
}

pub proof fn lemma_atoms_ok_seq(ts: Seq<TermView>)
    ensures
        atoms_ok_seq(ts) <==> (forall|i: int| 0 <= i < ts.len() ==> atoms_ok(#[trigger] ts[i])),
    decreases ts,
{
    if ts.len() > 0 {
        lemma_atoms_ok_seq(ts.drop_first());
        if atoms_ok_seq(ts) {
            assert forall|i: int| 0 <= i < ts.len() implies atoms_ok(#[trigger] ts[i]) by {
                if i > 0 {
                    assert(ts.drop_first()[i - 1] == ts[i]);
                }
            }
        }
        if forall|i: int| 0 <= i < ts.len() ==> atoms_ok(#[trigger] ts[i]) {
            assert forall|i: int|
                0 <= i < ts.drop_first().len() implies atoms_ok(
                #[trigger] ts.drop_first()[i],
            ) by {
                assert(ts.drop_first()[i] == ts[i + 1]);
            }
        }
    }
}

pub proof fn lemma_render_host_seq(ts: Seq<TermView>)
    ensures
        render_host_seq(ts).len() == ts.len(),
        forall|i: int| 0 <= i < ts.len() ==> render_host_seq(ts)[i] == render_host(
            #[trigger] ts[i],
        ),
    decreases ts,
{
    if ts.len() > 0 {
        lemma_render_host_seq(ts.drop_first());
        assert forall|i: int|
            0 <= i < ts.len() implies render_host_seq(ts)[i] == render_host(
            #[trigger] ts[i],
        ) by {
            if i > 0 {
                assert(ts.drop_first()[i - 1] == ts[i]);
            }
        }
    }
}

/// Round trip: every storable value survives rendering to the host and
/// parsing back unchanged.
pub proof fn lemma_parse_render_round_trip(t: TermView)
    ensures
        parse_host(render_host(t)) == Some(t),
    decreases t,
{
    match t {
        TermView::Tuple(ts) => lemma_parse_render_round_trip_seq(ts),
        TermView::List(ts) => lemma_parse_render_round_trip_seq(ts),
        _ => {},
    }
}

proof fn lemma_parse_render_round_trip_seq(ts: Seq<TermView>)
    ensures
        parse_host_seq(render_host_seq(ts)) == Some(ts),
    decreases ts,
{
    if ts.len() > 0 {
        lemma_parse_render_round_trip(ts[0]);
        lemma_parse_render_round_trip_seq(ts.drop_first());
        let rs = render_host_seq(ts);
        assert(rs[0] == render_host(ts[0]));
        assert(rs.drop_first() =~= render_host_seq(ts.drop_first()));
        assert(seq![ts[0]] + ts.drop_first() =~= ts);
    }
}

} // verus!
