//! Shared weight access for one stage of the model.
//!
//! A [`WeightBank`] bundles name-addressed tensors, from a shared [`Weights`], with the recurrent
//! matrices repacked into the panel layout.
use std::sync::Arc;
use vstd::arithmetic::mul::*;
use vstd::hash_map::StringHashMap;
use vstd::prelude::*;
use vstd::string::*;

use crate::error::{Error, ErrorView};
use crate::float::F32;
use crate::nn::{
    grouped_linear, grouped_linear_of, gru, gru_of, lemma_pack_len, pack_of, pack_rows, PANEL,
};
use crate::text::{list_text, push_list};
use crate::weights::{ArenaView, Weights};

verus! {

/// Hidden size of every recurrent unit in the model.
pub const HIDDEN: usize = 256;

/// What a [`WeightBank`] holds: the arena, the names of the tensors that were asked for, and the
/// packed matrices by name.
pub struct BankView {
    pub w: ArenaView,
    pub names: Seq<Seq<char>>,
    pub packed: Map<Seq<char>, Seq<F32>>,
}

/// Validated tensor access plus packed recurrent matrices for one model stage.
pub struct WeightBank {
    w: Arc<Weights>,
    names: Ghost<Seq<Seq<char>>>,
    packed_r: StringHashMap<Vec<F32>>,
}

/// What packed matrices hold.
pub open spec fn packed_views(m: Map<Seq<char>, Vec<F32>>) -> Map<Seq<char>, Seq<F32>> {
    Map::new(|name: Seq<char>| m.contains_key(name), |name: Seq<char>| m[name]@)
}

impl View for WeightBank {
    type V = BankView;

    closed spec fn view(&self) -> BankView {
        BankView { w: self.w@, names: self.names@, packed: packed_views(self.packed_r@) }
    }
}

/// The texts behind a list of names.
pub open spec fn names_of(s: Seq<&str>) -> Seq<Seq<char>> {
    Seq::new(s.len(), |i: int| s[i]@)
}

/// The first of the first `k` names that the arena does not hold.
pub open spec fn first_missing(a: ArenaView, names: Seq<Seq<char>>, k: nat) -> Option<Seq<char>>
    decreases k,
{
    if k == 0 {
        None
    } else {
        match first_missing(a, names, (k - 1) as nat) {
            Some(n) => Some(n),
            None => if a.tensors.contains_key(names[k - 1]) {
                None
            } else {
                Some(names[k - 1])
            },
        }
    }
}

/// A shape `[1, rows, k]` whose rows fill panels and whose width fills chunks of eight.
pub open spec fn is_gru_shape(s: Seq<usize>) -> bool {
    s.len() == 3 && s[1] % PANEL == 0 && s[2] % 8 == 0
}

/// Whether a `[1, rows, k]` tensor holds the numbers that its shape promises, and at least one.
pub open spec fn fills_its_shape(a: ArenaView, name: Seq<char>) -> bool {
    let t = a.tensors[name];
    0 < t.shape[1] * t.shape[2] <= t.len
}

/// The first `k` recurrent matrices in panels, or the first thing that is wrong with them.
pub open spec fn packed_after(
    a: ArenaView,
    gru_r: Seq<Seq<char>>,
    k: nat,
) -> Result<Map<Seq<char>, Seq<F32>>, ErrorView>
    decreases k,
{
    if k == 0 {
        Ok(Map::empty())
    } else {
        match packed_after(a, gru_r, (k - 1) as nat) {
            Err(e) => Err(e),
            Ok(m) => {
                let name = gru_r[k - 1];
                let s = a.tensors[name].shape;
                if !a.tensors.contains_key(name) {
                    Err(ErrorView::MissingTensor(name))
                } else if !is_gru_shape(s) {
                    Err(ErrorView::Weights(name + ": unexpected GRU shape "@ + list_text(s)))
                } else if !fills_its_shape(a, name) {
                    Err(ErrorView::Weights(name + ": too short for GRU shape "@ + list_text(s)))
                } else {
                    Ok(m.insert(name, pack_of(a.tensor(name), s[1] as int, s[2] as int)))
                }
            },
        }
    }
}

/// The bank over an arena: every required tensor must be there, and every recurrent matrix must
/// have a shape that can be packed and hold the numbers which that shape promises.
pub open spec fn bank_of(
    a: ArenaView,
    required: Seq<Seq<char>>,
    gru_r: Seq<Seq<char>>,
) -> Result<BankView, ErrorView> {
    match first_missing(a, required, required.len()) {
        Some(n) => Err(ErrorView::MissingTensor(n)),
        None => match packed_after(a, gru_r, gru_r.len()) {
            Err(e) => Err(e),
            Ok(packed) => Ok(BankView { w: a, names: required, packed }),
        },
    }
}

proof fn lemma_missing_stays(a: ArenaView, names: Seq<Seq<char>>, k: nat, n: nat)
    requires
        k <= n,
        first_missing(a, names, k) is Some,
    ensures
        first_missing(a, names, n) == first_missing(a, names, k),
    decreases n,
{
    if k < n {
        lemma_missing_stays(a, names, k, (n - 1) as nat);
    }
}

proof fn lemma_packing_stays_failed(a: ArenaView, gru_r: Seq<Seq<char>>, k: nat, n: nat)
    requires
        k <= n,
        packed_after(a, gru_r, k) is Err,
    ensures
        packed_after(a, gru_r, n) == packed_after(a, gru_r, k),
    decreases n,
{
    if k < n {
        lemma_packing_stays_failed(a, gru_r, k, (n - 1) as nat);
    }
}

proof fn lemma_none_missing(a: ArenaView, names: Seq<Seq<char>>, k: nat, i: int)
    requires
        first_missing(a, names, k) is None,
        0 <= i < k,
    ensures
        a.tensors.contains_key(names[i]),
    decreases k,
{
    if i < k - 1 {
        lemma_none_missing(a, names, (k - 1) as nat, i);
    }
}

pub proof fn lemma_all_packed(a: ArenaView, gru_r: Seq<Seq<char>>, k: nat, i: int)
    requires
        packed_after(a, gru_r, k) is Ok,
        0 <= i < k,
    ensures
        a.tensors.contains_key(gru_r[i]),
        is_gru_shape(a.tensors[gru_r[i]].shape),
        fills_its_shape(a, gru_r[i]),
        packed_after(a, gru_r, k)->Ok_0.contains_key(gru_r[i]),
        packed_after(a, gru_r, k)->Ok_0[gru_r[i]] == pack_of(
            a.tensor(gru_r[i]),
            a.tensors[gru_r[i]].shape[1] as int,
            a.tensors[gru_r[i]].shape[2] as int,
        ),
    decreases k,
{
    if i < k - 1 {
        lemma_all_packed(a, gru_r, (k - 1) as nat, i);
    }
}

/// Once a bank stands, no access to a required tensor can fail.
pub proof fn law_required_tensors_are_there(
    a: ArenaView,
    required: Seq<Seq<char>>,
    gru_r: Seq<Seq<char>>,
    i: int,
)
    requires
        0 <= i < required.len(),
    ensures
        bank_of(a, required, gru_r) matches Ok(b) ==> b.names.contains(required[i])
            && b.w.tensors.contains_key(required[i]),
{
    if bank_of(a, required, gru_r) is Ok {
        lemma_none_missing(a, required, required.len(), i);
    }
}

/// Once a bank stands, every recurrent matrix is there in panels.
pub proof fn law_recurrent_matrices_are_packed(
    a: ArenaView,
    required: Seq<Seq<char>>,
    gru_r: Seq<Seq<char>>,
    i: int,
)
    requires
        0 <= i < gru_r.len(),
    ensures
        bank_of(a, required, gru_r) matches Ok(b) ==> b.packed.contains_key(gru_r[i])
            && b.packed[gru_r[i]] == pack_of(
            a.tensor(gru_r[i]),
            a.tensors[gru_r[i]].shape[1] as int,
            a.tensors[gru_r[i]].shape[2] as int,
        ),
{
    if bank_of(a, required, gru_r) is Ok {
        lemma_all_packed(a, gru_r, gru_r.len(), i);
    }
}

/// `prefix`, a slash, `id`.
pub open spec fn qualified_of(prefix: Seq<char>, id: Seq<char>) -> Seq<char> {
    prefix + "/"@ + id
}

fn qualified(prefix: &str, id: &str) -> (r: String)
    ensures
        r@ == qualified_of(prefix@, id@),
{
    let mut s = prefix.to_owned();
    s.append("/");
    s.append(id);
    s
}

/// The grouped linear layer with the named `[G, I, H]` weight.
pub open spec fn gl_of(a: ArenaView, x: Seq<F32>, t: nat, name: Seq<char>) -> Seq<F32> {
    let s = a.tensors[name].shape;
    grouped_linear_of(x, t, s[0] as nat, s[1] as nat, s[2] as nat, a.tensor(name))
}

/// Whether the named weight is a `[G, I, H]` weight whose numbers are all there, for `x` of `t`
/// rows of width `G * I`.
pub open spec fn gl_fits(a: ArenaView, x: nat, t: int, name: Seq<char>) -> bool {
    let s = a.tensors[name].shape;
    &&& s.len() >= 3
    &&& t * s[0] * s[1] <= x
    &&& s[0] * (s[1] * s[2]) <= a.tensors[name].len
    &&& t * s[0] <= usize::MAX
    &&& s[1] * s[2] <= usize::MAX
}

/// The recurrent unit with the weights `<prefix>/<ids.0>`, packed `<prefix>/<ids.1>` and
/// `<prefix>/<ids.2>`.
pub open spec fn bank_gru_of(
    b: BankView,
    x: Seq<F32>,
    t: nat,
    i: int,
    prefix: Seq<char>,
    ids: (Seq<char>, Seq<char>, Seq<char>),
) -> Seq<F32> {
    gru_of(
        x,
        t,
        i,
        b.w.tensor(qualified_of(prefix, ids.0)),
        b.packed[qualified_of(prefix, ids.1)],
        b.w.tensor(qualified_of(prefix, ids.2)),
        HIDDEN as nat,
    )
}

/// Whether the weights of a recurrent unit are there and long enough for input width `i`.
pub open spec fn gru_fits(
    b: BankView,
    i: int,
    prefix: Seq<char>,
    ids: (Seq<char>, Seq<char>, Seq<char>),
) -> bool {
    &&& b.names.contains(qualified_of(prefix, ids.0))
    &&& b.packed.contains_key(qualified_of(prefix, ids.1))
    &&& b.names.contains(qualified_of(prefix, ids.2))
    &&& 3 * HIDDEN * i <= b.w.tensors[qualified_of(prefix, ids.0)].len
    &&& 3 * HIDDEN * HIDDEN <= b.packed[qualified_of(prefix, ids.1)].len()
    &&& 6 * HIDDEN <= b.w.tensors[qualified_of(prefix, ids.2)].len
}

/// A standing bank admits [`gl`](WeightBank::gl) on `t` rows out of `x` numbers with exactly the
/// required tensors that are `[G, I, H]` weights with all their numbers there, if the rows are wide
/// enough and the counts fit the machine.
pub proof fn law_a_bank_admits_grouped_linear_layers(
    a: ArenaView,
    required: Seq<Seq<char>>,
    gru_r: Seq<Seq<char>>,
    x: nat,
    t: nat,
    name: Seq<char>,
)
    ensures
        bank_of(a, required, gru_r) matches Ok(b) ==> (b.names.contains(name) && gl_fits(
            b.w,
            x,
            t as int,
            name,
        ) <==> ({
            let s = a.tensors[name].shape;
            &&& required.contains(name)
            &&& s.len() >= 3
            &&& t * (s[0] * s[1]) <= x
            &&& s[0] * s[1] * s[2] <= a.tensors[name].len
            &&& t * s[0] <= usize::MAX
            &&& s[1] * s[2] <= usize::MAX
        })),
{
    let s = a.tensors[name].shape;
    lemma_mul_is_associative(t as int, s[0] as int, s[1] as int);
    lemma_mul_is_associative(s[0] as int, s[1] as int, s[2] as int);
}

/// A standing bank admits [`gru`](WeightBank::gru) with input width `i` if the two weights are
/// required tensors of at least `[3 * 256, i]` and `[6 * 256]` numbers, and the packed matrix has
/// the shape `[1, 3 * 256, 256]`.
pub proof fn law_a_bank_admits_recurrent_units(
    a: ArenaView,
    required: Seq<Seq<char>>,
    gru_r: Seq<Seq<char>>,
    i: int,
    prefix: Seq<char>,
    ids: (Seq<char>, Seq<char>, Seq<char>),
)
    requires
        a.wf(),
        required.contains(qualified_of(prefix, ids.0)),
        gru_r.contains(qualified_of(prefix, ids.1)),
        required.contains(qualified_of(prefix, ids.2)),
        3 * HIDDEN * i <= a.tensors[qualified_of(prefix, ids.0)].len,
        a.tensors[qualified_of(prefix, ids.1)].shape == seq![1usize, 768, 256],
        6 * HIDDEN <= a.tensors[qualified_of(prefix, ids.2)].len,
    ensures
        bank_of(a, required, gru_r) matches Ok(b) ==> gru_fits(b, i, prefix, ids),
{
    if bank_of(a, required, gru_r) is Ok {
        let name = qualified_of(prefix, ids.1);
        lemma_all_packed(a, gru_r, gru_r.len(), gru_r.index_of(name));
        lemma_pack_len(a.tensor(name), 768, 256);
    }
}

impl WeightBank {
    #[verifier::type_invariant]
    spec fn inv(self) -> bool {
        forall|name: Seq<char>| #[trigger]
            self@.names.contains(name) ==> self@.w.tensors.contains_key(name)
    }

    /// Validates that every `required` tensor is present, then packs each `gru_r` matrix into the
    /// panel layout. After this succeeds, no access to a required tensor can fail: a bad weight
    /// file is rejected here, not in the middle of a run. A matrix with another shape than
    /// `[1, rows, k]`, or with fewer numbers than that shape promises, is an error that names it.
    pub fn new(w: Arc<Weights>, required: &[&str], gru_r: &[&str]) -> (r: Result<WeightBank, Error>)
        ensures
            match r {
                Ok(b) => bank_of(w@, names_of(required@), names_of(gru_r@)) == Ok::<
                    BankView,
                    ErrorView,
                >(b@),
                Err(e) => bank_of(w@, names_of(required@), names_of(gru_r@)) == Err::<
                    BankView,
                    ErrorView,
                >(e@),
            },
    {
        let ghost a = w@;
        let ghost req = names_of(required@);
        let ghost mats = names_of(gru_r@);
        let n = required.len();
        for i in 0..n
            invariant
                n == required@.len(),
                req == names_of(required@),
                mats == names_of(gru_r@),
                a == w@,
                first_missing(a, req, i as nat) is None,
        {
            match w.get(required[i]) {
                Ok(_) => {},
                Err(e) => {
                    proof {
                        lemma_missing_stays(a, req, (i + 1) as nat, req.len());
                    }
                    return Err(e);
                },
            }
        }
        let mut packed_r: StringHashMap<Vec<F32>> = StringHashMap::new();
        let m = gru_r.len();
        assert(packed_views(packed_r@) =~= Map::empty());
        for i in 0..m
            invariant
                m == gru_r@.len(),
                mats == names_of(gru_r@),
                a == w@,
                req == names_of(required@),
                first_missing(a, req, req.len()) is None,
                packed_after(a, mats, i as nat) == Ok::<Map<Seq<char>, Seq<F32>>, ErrorView>(
                    packed_views(packed_r@),
                ),
        {
            let name = gru_r[i];
            assert(mats[i as int] == name@);
            let s = match w.shape(name) {
                Ok(s) => s,
                Err(e) => {
                    proof {
                        lemma_packing_stays_failed(a, mats, (i + 1) as nat, mats.len());
                    }
                    return Err(e);
                },
            };
            if s.len() != 3 || s[1] % PANEL != 0 || s[2] % 8 != 0 {
                let mut t = name.to_owned();
                t.append(": unexpected GRU shape ");
                push_list(&mut t, s);
                proof {
                    lemma_packing_stays_failed(a, mats, (i + 1) as nat, mats.len());
                }
                return Err(Error::Weights(t));
            }
            let data = match w.get(name) {
                Ok(d) => d,
                Err(e) => return Err(e),
            };
            let size = product(s[1], s[2]);
            if size == 0 || size > data.len() as u128 {
                let mut t = name.to_owned();
                t.append(": too short for GRU shape ");
                push_list(&mut t, s);
                proof {
                    lemma_packing_stays_failed(a, mats, (i + 1) as nat, mats.len());
                }
                return Err(Error::Weights(t));
            }
            let ghost before = packed_views(packed_r@);
            let p = pack_rows(data, s[1], s[2]);
            let ghost pv = p@;
            packed_r.insert(name.to_owned(), p);
            assert(packed_views(packed_r@) =~= before.insert(name@, pv));
        }
        proof {
            assert forall|name: Seq<char>| #[trigger] req.contains(name) implies a.tensors.contains_key(
                name,
            ) by {
                lemma_none_missing(a, req, req.len(), req.index_of(name));
            }
        }
        Ok(WeightBank { w, names: Ghost(req), packed_r })
    }

    /// A validated tensor by name, which must be one of the required ones.
    pub fn t(&self, name: &str) -> (r: &[F32])
        requires
            self@.names.contains(name@),
        ensures
            r@ == self@.w.tensor(name@),
            r@.len() == self@.w.tensors[name@].len,
    {
        proof {
            use_type_invariant(self);
        }
        match self.w.get(name) {
            Ok(s) => s,
            Err(_) => &[],
        }
    }

    /// The shape of a validated tensor, which must be one of the required ones.
    pub fn shape(&self, name: &str) -> (r: &[usize])
        requires
            self@.names.contains(name@),
        ensures
            r@ == self@.w.tensors[name@].shape,
    {
        proof {
            use_type_invariant(self);
        }
        match self.w.shape(name) {
            Ok(s) => s,
            Err(_) => &[],
        }
    }

    /// The numbers of a packed recurrent matrix.
    pub fn panels(&self, name: &str) -> (r: &[F32])
        requires
            self@.packed.contains_key(name@),
        ensures
            r@ == self@.packed[name@],
    {
        match self.packed_r.get(name) {
            Some(p) => p.as_slice(),
            None => &[],
        }
    }

    /// Grouped linear layer using the named `[G, I, H]` weight.
    pub fn gl(&self, x: &[F32], t: usize, name: &str) -> (r: Vec<F32>)
        requires
            self@.names.contains(name@),
            gl_fits(self@.w, x@.len(), t as int, name@),
        ensures
            r@ == gl_of(self@.w, x@, t as nat, name@),
            r@.len() == t * (self@.w.tensors[name@].shape[0] * self@.w.tensors[name@].shape[2]),
    {
        let s = self.shape(name);
        grouped_linear(x, t, s[0], s[1], s[2], self.t(name))
    }

    /// A recurrent unit with input width `i`, reading `<prefix>/<w>`, packed `<prefix>/<r>` and
    /// `<prefix>/<b>` (gate order z, r, h).
    pub fn gru(&self, x: &[F32], t: usize, i: usize, prefix: &str, ids: (&str, &str, &str)) -> (r:
        Vec<F32>)
        requires
            gru_fits(self@, i as int, prefix@, (ids.0@, ids.1@, ids.2@)),
            t > 0,
            i > 0,
            x@.len() == t * i,
            t * (3 * HIDDEN) <= usize::MAX,
        ensures
            r@ == bank_gru_of(
                self@,
                x@,
                t as nat,
                i as int,
                prefix@,
                (ids.0@, ids.1@, ids.2@),
            ),
            r@.len() == t * HIDDEN,
    {
        let w = self.t(qualified(prefix, ids.0).as_str());
        let r = self.panels(qualified(prefix, ids.1).as_str());
        let b = self.t(qualified(prefix, ids.2).as_str());
        gru(x, t, i, w, r, b, HIDDEN)
    }
}

/// `a * b`, which always fits.
pub(crate) fn product(a: usize, b: usize) -> (r: u128)
    ensures
        r == a * b,
{
    proof {
        lemma_mul_upper_bound(a as int, 0xffff_ffff_ffff_ffff, b as int, 0xffff_ffff_ffff_ffff);
        lemma_mul_nonnegative(a as int, b as int);
        assert(usize::MAX <= 0xffff_ffff_ffff_ffff);
    }
    (a as u128) * (b as u128)
}

} // verus!
