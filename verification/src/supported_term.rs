use core::cmp::Ordering;
use vstd::prelude::*;
use vstd::string::StrSliceExecFns;

verus! {

/// The closed set of structured values that can be stored in the index.
///
/// Values are ranked `Integer < Atom < Tuple < List < Bitstring`; within a
/// variant the payload decides, see [`term_cmp`]. The order exists only to
/// keep each key's value collection sorted and deduplicated.
#[derive(Debug)]
pub enum SupportedTerm {
    Integer(i64),
    Atom(String),
    Tuple(Vec<SupportedTerm>),
    List(Vec<SupportedTerm>),
    Bitstring(String),
}

/// Why a host value could not be turned into a [`SupportedTerm`].
#[derive(Debug, PartialEq, Eq)]
pub enum ParseSupportedError {
    UnsupportedType,
}

/// Mathematical model of a [`SupportedTerm`]: the same tree with unbounded
/// integers and character sequences for payloads.
pub enum TermView {
    Integer(int),
    Atom(Seq<char>),
    Tuple(Seq<TermView>),
    List(Seq<TermView>),
    Bitstring(Seq<char>),
}

pub open spec fn term_view(t: SupportedTerm) -> TermView
    decreases t,
{
    match t {
        SupportedTerm::Integer(i) => TermView::Integer(i as int),
        SupportedTerm::Atom(s) => TermView::Atom(s@),
        SupportedTerm::Tuple(v) => TermView::Tuple(seq_term_view(v@)),
        SupportedTerm::List(v) => TermView::List(seq_term_view(v@)),
        SupportedTerm::Bitstring(s) => TermView::Bitstring(s@),
    }
}

pub open spec fn seq_term_view(s: Seq<SupportedTerm>) -> Seq<TermView>
    decreases s,
{
    if s.len() == 0 {
        Seq::empty()
    } else {
        seq![term_view(s[0])] + seq_term_view(s.drop_first())
    }
}

impl View for SupportedTerm {
    type V = TermView;

    open spec fn view(&self) -> TermView {
        term_view(*self)
    }
}

pub proof fn lemma_seq_term_view(s: Seq<SupportedTerm>)
    ensures
        seq_term_view(s).len() == s.len(),
        forall|i: int| 0 <= i < s.len() ==> seq_term_view(s)[i] == term_view(#[trigger] s[i]),
        forall|i: int| 0 <= i < s.len() ==> #[trigger] seq_term_view(s)[i] == term_view(s[i]),
    decreases s,
{
    if s.len() > 0 {
        lemma_seq_term_view(s.drop_first());
        assert forall|i: int| 0 <= i < s.len() implies seq_term_view(s)[i] == term_view(
            #[trigger] s[i],
        ) by {
            if i > 0 {
                assert(s.drop_first()[i - 1] == s[i]);
            }
        }
    }
}

/// Rank of a variant in the cross-variant ordering.
pub open spec fn rank_of(t: TermView) -> int {
    match t {
        TermView::Integer(_) => 0,
        TermView::Atom(_) => 1,
        TermView::Tuple(_) => 2,
        TermView::List(_) => 3,
        TermView::Bitstring(_) => 4,
    }
}

pub open spec fn int_cmp(x: int, y: int) -> Ordering {
    if x < y {
        Ordering::Less
    } else if y < x {
        Ordering::Greater
    } else {
        Ordering::Equal
    }
}

/// Lexicographic order on character sequences by code point; a strict prefix
/// comes first.
pub open spec fn chars_cmp(a: Seq<char>, b: Seq<char>) -> Ordering
    decreases a.len(),
{
    if a.len() == 0 && b.len() == 0 {
        Ordering::Equal
    } else if a.len() == 0 {
        Ordering::Less
    } else if b.len() == 0 {
        Ordering::Greater
    } else if a[0] < b[0] {
        Ordering::Less
    } else if b[0] < a[0] {
        Ordering::Greater
    } else {
        chars_cmp(a.drop_first(), b.drop_first())
    }
}

/// Total order on term models.
///
/// Across variants the rank alone decides. Within a variant the payload
/// decides: integers and character payloads by their natural orders, tuples
/// by length first and then elementwise, lists elementwise over the common
/// prefix and then by length.
pub open spec fn term_cmp(a: TermView, b: TermView) -> Ordering
    decreases a,
{
    match (a, b) {
        (TermView::Integer(x), TermView::Integer(y)) => int_cmp(x, y),
        (TermView::Atom(x), TermView::Atom(y)) => chars_cmp(x, y),
        (TermView::Tuple(x), TermView::Tuple(y)) => if x.len() != y.len() {
            int_cmp(x.len() as int, y.len() as int)
        } else {
            seq_cmp(x, y)
        },
        (TermView::List(x), TermView::List(y)) => seq_cmp(x, y),
        (TermView::Bitstring(x), TermView::Bitstring(y)) => chars_cmp(x, y),
        _ => if rank_of(a) < rank_of(b) {
            Ordering::Less
        } else {
            Ordering::Greater
        },
    }
}

/// Lexicographic order on term sequences: elementwise over the common
/// prefix, then the shorter sequence first.
pub open spec fn seq_cmp(x: Seq<TermView>, y: Seq<TermView>) -> Ordering
    decreases x,
{
    if x.len() == 0 && y.len() == 0 {
        Ordering::Equal
    } else if x.len() == 0 {
        Ordering::Less
    } else if y.len() == 0 {
        Ordering::Greater
    } else {
        match term_cmp(x[0], y[0]) {
            Ordering::Equal => seq_cmp(x.drop_first(), y.drop_first()),
            o => o,
        }
    }
}

impl SupportedTerm {
    /// Rank of this value's variant in the cross-variant ordering.
    pub fn rank(&self) -> (r: u8)
        ensures
            r as int == rank_of(self@),
    {
        match self {
            SupportedTerm::Integer(_) => 0,
            SupportedTerm::Atom(_) => 1,
            SupportedTerm::Tuple(_) => 2,
            SupportedTerm::List(_) => 3,
            SupportedTerm::Bitstring(_) => 4,
        }
    }

    /// Three-way comparison implementing exactly [`term_cmp`] on the models.
    pub fn cmp(&self, other: &SupportedTerm) -> (r: Ordering)
        ensures
            r == term_cmp(self@, other@),
        decreases *self,
    {
        match (self, other) {
            (SupportedTerm::Integer(x), SupportedTerm::Integer(y)) => {
                if *x < *y {
                    Ordering::Less
                } else if *y < *x {
                    Ordering::Greater
                } else {
                    Ordering::Equal
                }
            },
            (SupportedTerm::Atom(x), SupportedTerm::Atom(y)) => cmp_str(x.as_str(), y.as_str()),
            (SupportedTerm::Bitstring(x), SupportedTerm::Bitstring(y)) => cmp_str(
                x.as_str(),
                y.as_str(),
            ),
            (SupportedTerm::Tuple(x), SupportedTerm::Tuple(y)) => {
                proof {
                    lemma_seq_term_view(x@);
                    lemma_seq_term_view(y@);
                }
                if x.len() != y.len() {
                    if x.len() < y.len() {
                        Ordering::Less
                    } else {
                        Ordering::Greater
                    }
                } else {
                    cmp_elems(x, y)
                }
            },
            (SupportedTerm::List(x), SupportedTerm::List(y)) => cmp_elems(x, y),
            _ => {
                let ra = self.rank();
                let rb = other.rank();
                if ra < rb {
                    Ordering::Less
                } else {
                    Ordering::Greater
                }
            },
        }
    }
}

proof fn lemma_seq_cmp_skip_step(s: Seq<TermView>, t: Seq<TermView>, i: int)
    requires
        0 <= i < s.len(),
        0 <= i < t.len(),
        term_cmp(s[i], t[i]) == Ordering::Equal,
    ensures
        seq_cmp(s.skip(i), t.skip(i)) == seq_cmp(s.skip(i + 1), t.skip(i + 1)),
{
    assert(s.skip(i)[0] == s[i]);
    assert(t.skip(i)[0] == t[i]);
    assert(s.skip(i).drop_first() =~= s.skip(i + 1));
    assert(t.skip(i).drop_first() =~= t.skip(i + 1));
}

proof fn lemma_chars_cmp_skip_step(s: Seq<char>, t: Seq<char>, i: int)
    requires
        0 <= i < s.len(),
        0 <= i < t.len(),
        s[i] == t[i],
    ensures
        chars_cmp(s.skip(i), t.skip(i)) == chars_cmp(s.skip(i + 1), t.skip(i + 1)),
{
    assert(s.skip(i)[0] == s[i]);
    assert(t.skip(i)[0] == t[i]);
    assert(s.skip(i).drop_first() =~= s.skip(i + 1));
    assert(t.skip(i).drop_first() =~= t.skip(i + 1));
}

/// Lexicographic comparison of two strings, character by character.
fn cmp_str(a: &str, b: &str) -> (r: Ordering)
    ensures
        r == chars_cmp(a@, b@),
{
    let la = a.unicode_len();
    let lb = b.unicode_len();
    proof {
        assert(a@.skip(0) =~= a@);
        assert(b@.skip(0) =~= b@);
    }
    let mut i: usize = 0;
    while i < la && i < lb
        invariant
            i <= la,
            i <= lb,
            la == a@.len(),
            lb == b@.len(),
            chars_cmp(a@, b@) == chars_cmp(a@.skip(i as int), b@.skip(i as int)),
        decreases la - i,
    {
        let ca = a.get_char(i);
        let cb = b.get_char(i);
        proof {
            lemma_char_lt_by_code_point(ca, cb);
            lemma_char_lt_by_code_point(cb, ca);
        }
        if (ca as u32) < (cb as u32) {
            return Ordering::Less;
        }
        if (cb as u32) < (ca as u32) {
            return Ordering::Greater;
        }
        proof {
            lemma_chars_cmp_skip_step(a@, b@, i as int);
        }
        i = i + 1;
    }
    if i < lb {
        Ordering::Less
    } else if i < la {
        Ordering::Greater
    } else {
        Ordering::Equal
    }
}

/// Elementwise comparison of two term vectors, falling back to the lengths
/// when the common prefix decides nothing.
fn cmp_elems(x: &Vec<SupportedTerm>, y: &Vec<SupportedTerm>) -> (r: Ordering)
    ensures
        r == seq_cmp(seq_term_view(x@), seq_term_view(y@)),
    decreases x@,
{
    proof {
        lemma_seq_term_view(x@);
        lemma_seq_term_view(y@);
        assert(seq_term_view(x@).skip(0) =~= seq_term_view(x@));
        assert(seq_term_view(y@).skip(0) =~= seq_term_view(y@));
    }
    let mut i: usize = 0;
    while i < x.len() && i < y.len()
        invariant
            i <= x.len(),
            i <= y.len(),
            seq_term_view(x@).len() == x@.len(),
            seq_term_view(y@).len() == y@.len(),
            forall|j: int|
                0 <= j < x@.len() ==> seq_term_view(x@)[j] == term_view(#[trigger] x@[j]),
            forall|j: int|
                0 <= j < y@.len() ==> seq_term_view(y@)[j] == term_view(#[trigger] y@[j]),
            seq_cmp(seq_term_view(x@), seq_term_view(y@)) == seq_cmp(
                seq_term_view(x@).skip(i as int),
                seq_term_view(y@).skip(i as int),
            ),
        decreases x@.len() - i,
    {
        let c = x[i].cmp(&y[i]);
        match c {
            Ordering::Equal => {
                proof {
                    lemma_seq_cmp_skip_step(seq_term_view(x@), seq_term_view(y@), i as int);
                }
                i = i + 1;
            },
            _ => {
                return c;
            },
        }
    }
    if i < y.len() {
        Ordering::Less
    } else if i < x.len() {
        Ordering::Greater
    } else {
        Ordering::Equal
    }
}

impl SupportedTerm {
    /// Structural equality: same variant, equal payload; never true across
    /// variants.
    pub fn term_eq(&self, other: &SupportedTerm) -> (r: bool)
        ensures
            r == (self@ == other@),
        decreases *self,
    {
        match (self, other) {
            (SupportedTerm::Integer(x), SupportedTerm::Integer(y)) => *x == *y,
            (SupportedTerm::Atom(x), SupportedTerm::Atom(y)) => *x == *y,
            (SupportedTerm::Tuple(x), SupportedTerm::Tuple(y)) => eq_elems(x, y),
            (SupportedTerm::List(x), SupportedTerm::List(y)) => eq_elems(x, y),
            (SupportedTerm::Bitstring(x), SupportedTerm::Bitstring(y)) => *x == *y,
            _ => false,
        }
    }

    /// A deep copy whose model is the same.
    pub fn deep_clone(&self) -> (r: SupportedTerm)
        ensures
            r@ == self@,
        decreases *self,
    {
        match self {
            SupportedTerm::Integer(x) => SupportedTerm::Integer(*x),
            SupportedTerm::Atom(s) => SupportedTerm::Atom(s.clone()),
            SupportedTerm::Tuple(v) => SupportedTerm::Tuple(clone_elems(v)),
            SupportedTerm::List(v) => SupportedTerm::List(clone_elems(v)),
            SupportedTerm::Bitstring(s) => SupportedTerm::Bitstring(s.clone()),
        }
    }
}

fn eq_elems(x: &Vec<SupportedTerm>, y: &Vec<SupportedTerm>) -> (r: bool)
    ensures
        r == (seq_term_view(x@) == seq_term_view(y@)),
    decreases x@,
{
    proof {
        lemma_seq_term_view(x@);
        lemma_seq_term_view(y@);
    }
    if x.len() != y.len() {
        return false;
    }
    let mut i: usize = 0;
    while i < x.len()
        invariant
            i <= x.len(),
            x@.len() == y@.len(),
            seq_term_view(x@).len() == x@.len(),
            seq_term_view(y@).len() == y@.len(),
            forall|j: int|
                0 <= j < x@.len() ==> seq_term_view(x@)[j] == term_view(#[trigger] x@[j]),
            forall|j: int|
                0 <= j < y@.len() ==> seq_term_view(y@)[j] == term_view(#[trigger] y@[j]),
            forall|j: int| 0 <= j < i ==> seq_term_view(x@)[j] == seq_term_view(y@)[j],
        decreases x@.len() - i,
    {
        if !x[i].term_eq(&y[i]) {
            return false;
        }
        i = i + 1;
    }
    proof {
        assert(seq_term_view(x@) =~= seq_term_view(y@));
    }
    true
}

fn clone_elems(x: &Vec<SupportedTerm>) -> (r: Vec<SupportedTerm>)
    ensures
        seq_term_view(r@) == seq_term_view(x@),
    decreases x@,
{
    proof {
        lemma_seq_term_view(x@);
    }
    let mut r: Vec<SupportedTerm> = Vec::new();
    let mut i: usize = 0;
    while i < x.len()
        invariant
            i <= x.len(),
            r@.len() == i,
            seq_term_view(x@).len() == x@.len(),
            forall|j: int|
                0 <= j < x@.len() ==> seq_term_view(x@)[j] == term_view(#[trigger] x@[j]),
            forall|j: int| 0 <= j < i ==> term_view(#[trigger] r@[j]) == seq_term_view(x@)[j],
        decreases x@.len() - i,
    {
        r.push(x[i].deep_clone());
        i = i + 1;
    }
    proof {
        lemma_seq_term_view(r@);
        assert forall|j: int| 0 <= j < x@.len() implies seq_term_view(r@)[j] == seq_term_view(
            x@,
        )[j] by {
            assert(seq_term_view(r@)[j] == term_view(r@[j]));
        }
        assert(seq_term_view(r@) =~= seq_term_view(x@));
    }
    r
}

impl PartialEq for SupportedTerm {
    fn eq(&self, other: &SupportedTerm) -> (r: bool) {
        self.term_eq(other)
    }
}

impl vstd::std_specs::cmp::PartialEqSpecImpl for SupportedTerm {
    open spec fn obeys_eq_spec() -> bool {
        true
    }

    open spec fn eq_spec(&self, other: &SupportedTerm) -> bool {
        self@ == other@
    }
}

impl PartialOrd for SupportedTerm {
    fn partial_cmp(&self, other: &SupportedTerm) -> (r: Option<Ordering>) {
        Some(self.cmp(other))
    }
}

impl vstd::std_specs::cmp::PartialOrdSpecImpl for SupportedTerm {
    open spec fn obeys_partial_cmp_spec() -> bool {
        true
    }

    open spec fn partial_cmp_spec(&self, other: &SupportedTerm) -> Option<Ordering> {
        Some(term_cmp(self@, other@))
    }
}

/// The opposite of a comparison outcome.
pub open spec fn flip(o: Ordering) -> Ordering {
    match o {
        Ordering::Less => Ordering::Greater,
        Ordering::Equal => Ordering::Equal,
        Ordering::Greater => Ordering::Less,
    }
}

proof fn lemma_chars_cmp_equal_iff(a: Seq<char>, b: Seq<char>)
    ensures
        (chars_cmp(a, b) == Ordering::Equal) <==> a == b,
    decreases a.len(),
{
    if a.len() == 0 && b.len() == 0 {
        assert(a =~= b);
    } else if a.len() != 0 && b.len() != 0 {
        lemma_chars_cmp_equal_iff(a.drop_first(), b.drop_first());
        if chars_cmp(a, b) == Ordering::Equal {
            assert(a[0] == b[0]);
            assert(a.drop_first() == b.drop_first());
            assert(a.len() == b.len());
            assert forall|i: int| 0 <= i < a.len() implies a[i] == b[i] by {
                if i > 0 {
                    assert(a.drop_first()[i - 1] == b.drop_first()[i - 1]);
                }
            }
            assert(a =~= b);
        }
        if a == b {
            assert(a.drop_first() == b.drop_first());
        }
    }
}

proof fn lemma_chars_cmp_flip(a: Seq<char>, b: Seq<char>)
    ensures
        chars_cmp(b, a) == flip(chars_cmp(a, b)),
    decreases a.len(),
{
    if a.len() != 0 && b.len() != 0 {
        lemma_chars_cmp_flip(a.drop_first(), b.drop_first());
    }
}

proof fn lemma_chars_cmp_trans(a: Seq<char>, b: Seq<char>, c: Seq<char>)
    requires
        chars_cmp(a, b) == Ordering::Less,
        chars_cmp(b, c) == Ordering::Less,
    ensures
        chars_cmp(a, c) == Ordering::Less,
    decreases a.len(),
{
    if a.len() != 0 && b.len() != 0 && c.len() != 0 {
        if a[0] == b[0] && b[0] == c[0] {
            lemma_chars_cmp_trans(a.drop_first(), b.drop_first(), c.drop_first());
        }
    }
}

/// Two term models are equal exactly when the comparator says so.
pub proof fn lemma_term_order_equal_iff(a: TermView, b: TermView)
    ensures
        (term_cmp(a, b) == Ordering::Equal) <==> a == b,
    decreases a,
{
    match (a, b) {
        (TermView::Atom(x), TermView::Atom(y)) => lemma_chars_cmp_equal_iff(x, y),
        (TermView::Bitstring(x), TermView::Bitstring(y)) => lemma_chars_cmp_equal_iff(x, y),
        (TermView::Tuple(x), TermView::Tuple(y)) => {
            if x.len() == y.len() {
                lemma_seq_cmp_equal_iff(x, y);
            }
        },
        (TermView::List(x), TermView::List(y)) => lemma_seq_cmp_equal_iff(x, y),
        _ => {},
    }
}

proof fn lemma_seq_cmp_equal_iff(x: Seq<TermView>, y: Seq<TermView>)
    ensures
        (seq_cmp(x, y) == Ordering::Equal) <==> x == y,
    decreases x,
{
    if x.len() == 0 && y.len() == 0 {
        assert(x =~= y);
    } else if x.len() != 0 && y.len() != 0 {
        lemma_term_order_equal_iff(x[0], y[0]);
        lemma_seq_cmp_equal_iff(x.drop_first(), y.drop_first());
        if seq_cmp(x, y) == Ordering::Equal {
            assert(x.drop_first() == y.drop_first());
            assert(x.len() == y.len());
            assert forall|i: int| 0 <= i < x.len() implies x[i] == y[i] by {
                if i > 0 {
                    assert(x.drop_first()[i - 1] == y.drop_first()[i - 1]);
                }
            }
            assert(x =~= y);
        }
        if x == y {
            assert(x.drop_first() == y.drop_first());
        }
    }
}

/// Comparing in the opposite direction gives the opposite outcome, so the
/// order is antisymmetric.
pub proof fn lemma_term_order_flip(a: TermView, b: TermView)
    ensures
        term_cmp(b, a) == flip(term_cmp(a, b)),
    decreases a,
{
    match (a, b) {
        (TermView::Atom(x), TermView::Atom(y)) => lemma_chars_cmp_flip(x, y),
        (TermView::Bitstring(x), TermView::Bitstring(y)) => lemma_chars_cmp_flip(x, y),
        (TermView::Tuple(x), TermView::Tuple(y)) => {
            if x.len() == y.len() {
                lemma_seq_cmp_flip(x, y);
            }
        },
        (TermView::List(x), TermView::List(y)) => lemma_seq_cmp_flip(x, y),
        _ => {},
    }
}

proof fn lemma_seq_cmp_flip(x: Seq<TermView>, y: Seq<TermView>)
    ensures
        seq_cmp(y, x) == flip(seq_cmp(x, y)),
    decreases x,
{
    if x.len() != 0 && y.len() != 0 {
        lemma_term_order_flip(x[0], y[0]);
        lemma_seq_cmp_flip(x.drop_first(), y.drop_first());
    }
}

proof fn lemma_term_cmp_less_rank(a: TermView, b: TermView)
    ensures
        term_cmp(a, b) == Ordering::Less ==> rank_of(a) <= rank_of(b),
        rank_of(a) != rank_of(b) ==> (term_cmp(a, b) == Ordering::Less <==> rank_of(a) < rank_of(
            b,
        )),
{
}

/// The order is transitive.
pub proof fn lemma_term_order_transitive(a: TermView, b: TermView, c: TermView)
    requires
        term_cmp(a, b) == Ordering::Less,
        term_cmp(b, c) == Ordering::Less,
    ensures
        term_cmp(a, c) == Ordering::Less,
    decreases a,
{
    lemma_term_cmp_less_rank(a, b);
    lemma_term_cmp_less_rank(b, c);
    lemma_term_cmp_less_rank(a, c);
    if rank_of(a) == rank_of(b) && rank_of(b) == rank_of(c) {
        match (a, b, c) {
            (TermView::Atom(x), TermView::Atom(y), TermView::Atom(z)) => lemma_chars_cmp_trans(
                x,
                y,
                z,
            ),
            (
                TermView::Bitstring(x),
                TermView::Bitstring(y),
                TermView::Bitstring(z),
            ) => lemma_chars_cmp_trans(x, y, z),
            (TermView::Tuple(x), TermView::Tuple(y), TermView::Tuple(z)) => {
                if x.len() == y.len() && y.len() == z.len() {
                    lemma_seq_cmp_trans(x, y, z);
                }
            },
            (TermView::List(x), TermView::List(y), TermView::List(z)) => lemma_seq_cmp_trans(
                x,
                y,
                z,
            ),
            _ => {},
        }
    }
}

proof fn lemma_seq_cmp_trans(x: Seq<TermView>, y: Seq<TermView>, z: Seq<TermView>)
    requires
        seq_cmp(x, y) == Ordering::Less,
        seq_cmp(y, z) == Ordering::Less,
    ensures
        seq_cmp(x, z) == Ordering::Less,
    decreases x,
{
    if x.len() == 0 {
        // y must be longer, and z cannot be empty either
    } else {
        let c1 = term_cmp(x[0], y[0]);
        let c2 = term_cmp(y[0], z[0]);
        lemma_term_order_equal_iff(x[0], y[0]);
        lemma_term_order_equal_iff(y[0], z[0]);
        if c1 == Ordering::Equal && c2 == Ordering::Equal {
            lemma_seq_cmp_trans(x.drop_first(), y.drop_first(), z.drop_first());
        } else if c1 == Ordering::Less && c2 == Ordering::Less {
            lemma_term_order_transitive(x[0], y[0], z[0]);
        }
    }
}

/// For values of different variants the rank alone decides, so exactly one
/// of `a` before `b`, `b` before `a` holds, and never equality.
pub proof fn lemma_term_order_cross_variant(a: TermView, b: TermView)
    requires
        rank_of(a) != rank_of(b),
    ensures
        term_cmp(a, b) != Ordering::Equal,
        term_cmp(a, b) == Ordering::Less <==> rank_of(a) < rank_of(b),
        term_cmp(a, b) == Ordering::Less <==> term_cmp(b, a) == Ordering::Greater,
{
    lemma_term_cmp_less_rank(a, b);
    lemma_term_cmp_less_rank(b, a);
    lemma_term_order_flip(a, b);
}

} // verus!

verus! {

/// Characters order by their code point.
proof fn lemma_char_lt_by_code_point(a: char, b: char)
    ensures
        (a < b) <==> ((a as u32) < (b as u32)),
{
}

} // verus!
