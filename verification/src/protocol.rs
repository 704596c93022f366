//! The two parties of the protocol as state machines. Each method takes what
//! the party received and returns what it sends next; the caller moves the
//! messages.
//!
//! The client masks its set with its secret `a` and waits for the server's
//! set masked with `b`. It masks that set with `a` (giving the server's
//! elements masked with `b` then `a`), sends it back followed by its own
//! masked set, and receives its own set masked with `a` then `b`. Both
//! parties count the elements that the two doubly masked sets share.

use crate::group::{
    group_order, is_zero_scalar, le_nat, lemma_le_nat_zero, mask_commutes, mask_facts,
    random_scalar_bytes, ristretto_scale, shuffle_points, Point,
};
use crate::points::{
    cmult_vec, encodings, generate_points, generated_encoding, intersect_size, intersection_size,
    lemma_same_multiset_same_set, views,
};
use vstd::prelude::*;

verus! {

/// The encodings of the first `n` generated input elements, each multiplied
/// by the scalar with bytes `secret`.
pub open spec fn masked_inputs(n: nat, secret: Seq<u8>) -> Seq<Seq<u8>> {
    Seq::new(n, |i: int| ristretto_scale(generated_encoding(i), secret))
}

/// The encodings `encs`, each multiplied by the scalar with bytes `secret`.
pub open spec fn scaled(encs: Seq<Seq<u8>>, secret: Seq<u8>) -> Seq<Seq<u8>> {
    encs.map_values(|e: Seq<u8>| ristretto_scale(e, secret))
}

/// Mapping a function over two sequences that hold the same items as often
/// gives two sequences that hold the same items as often.
proof fn lemma_map_values_to_multiset<A, B>(s1: Seq<A>, s2: Seq<A>, f: spec_fn(A) -> B)
    requires
        s1.to_multiset() == s2.to_multiset(),
    ensures
        s1.map_values(f).to_multiset() == s2.map_values(f).to_multiset(),
    decreases s1.len(),
{
    broadcast use vstd::seq_lib::group_to_multiset_ensures;
    broadcast use vstd::multiset::group_multiset_axioms;

    if s1.len() == 0 {
        vstd::seq_lib::to_multiset_len(s1);
        vstd::seq_lib::to_multiset_len(s2);
        assert(s2.len() == 0);
        assert(s1.map_values(f) =~= Seq::empty());
        assert(s2.map_values(f) =~= Seq::empty());
    } else {
        let x = s1.last();
        let rest1 = s1.drop_last();
        assert(s1 =~= rest1.push(x));
        assert(s2.to_multiset().count(x) > 0);
        assert(s2.contains(x));
        let k = choose|k: int| 0 <= k < s2.len() && s2[k] == x;
        let rest2 = s2.remove(k);
        assert(rest1.to_multiset() =~= rest2.to_multiset());
        lemma_map_values_to_multiset(rest1, rest2, f);
        assert(s1.map_values(f) =~= rest1.map_values(f).push(f(x)));
        assert(s2.map_values(f).remove(k) =~= rest2.map_values(f));
        let m2 = s2.map_values(f);
        assert(m2[k] == f(x));
        assert(m2.remove(k).to_multiset() == m2.to_multiset().remove(f(x)));
        assert(m2.to_multiset().count(f(x)) > 0) by {
            assert(m2.contains(f(x)));
        }
        assert(m2.to_multiset().remove(f(x)).insert(f(x)) =~= m2.to_multiset());
    }
}

/// Whether all 32 bytes are zero.
fn all_zero(b: &[u8; 32]) -> (zero: bool)
    ensures
        zero == (forall|i: int| 0 <= i < 32 ==> b@[i] == 0),
{
    let mut i: usize = 0;
    while i < 32
        invariant
            i <= 32,
            forall|j: int| 0 <= j < i ==> b@[j] == 0,
        decreases 32 - i,
    {
        if b[i] != 0 {
            return false;
        }
        i = i + 1;
    }
    true
}

/// A random secret scalar that is not zero modulo the group order. A
/// uniform scalar is zero with probability below 2^-252; a zero draw is
/// drawn again, up to 64 times, and after 64 zero draws the scalar one is
/// taken.
fn draw_secret() -> (secret: [u8; 32])
    ensures
        !is_zero_scalar(secret@),
{
    let mut tries: u32 = 0;
    while tries < 64
        decreases 64 - tries,
    {
        let s = random_scalar_bytes();
        if !all_zero(&s) {
            proof {
                lemma_le_nat_zero(s@);
                assert(le_nat(s@) % group_order() == le_nat(s@)) by (nonlinear_arith)
                    requires
                        le_nat(s@) < group_order(),
                ;
            }
            return s;
        }
        tries = tries + 1;
    }
    let mut one = [0u8; 32];
    one[0] = 1;
    proof {
        lemma_le_nat_zero(one@.drop_first());
        assert forall|i: int| 0 <= i < one@.drop_first().len() implies one@.drop_first()[i] == 0 by {
            assert(one@.drop_first()[i] == one@[i + 1]);
        }
        assert(le_nat(one@) == 1);
        assert(le_nat(one@) % group_order() == 1) by (nonlinear_arith)
            requires
                le_nat(one@) == 1,
                group_order() > 1,
        ;
    }
    one
}

/// Shuffled `points`, masked with `secret`.
fn shuffle_and_mask(points: Vec<Point>, secret: &[u8; 32]) -> (masked: Vec<Point>)
    ensures
        views(masked@).to_multiset() == scaled(views(points@), secret@).to_multiset(),
        forall|e: Seq<u8>| #[trigger] views(points@).contains(e) ==> mask_facts(e, secret@),
{
    let mut shuffled = points;
    shuffle_points(&mut shuffled);
    let masked = cmult_vec(shuffled, *secret);
    proof {
        lemma_map_values_to_multiset(shuffled@, points@, |p: Point| p@);
        lemma_same_multiset_same_set(views(shuffled@), views(points@));
        assert forall|e: Seq<u8>| #[trigger] views(points@).contains(e) implies mask_facts(e, secret@) by {
            assert(views(points@).to_set().contains(e));
            assert(views(shuffled@).to_set().contains(e));
            let i = choose|i: int| 0 <= i < views(shuffled@).len() && views(shuffled@)[i] == e;
            assert(shuffled@[i]@ == e);
        }
        lemma_map_values_to_multiset(
            views(shuffled@),
            views(points@),
            |e: Seq<u8>| ristretto_scale(e, secret@),
        );
        assert(views(masked@) =~= scaled(views(shuffled@), secret@));
    }
    masked
}

/// The client: it holds its secret, its masked set, and the server's set
/// once masked by both parties.
pub struct ClientSession {
    secret: [u8; 32],
    own_masked: Vec<Point>,
    peer_doubly_masked: Vec<Point>,
}

impl ClientSession {
    /// The bytes of the client's secret scalar.
    pub closed spec fn secret(&self) -> Seq<u8> {
        self.secret@
    }

    /// The client's set masked with its secret, in the order it is sent.
    pub closed spec fn own_masked(&self) -> Seq<Seq<u8>> {
        views(self.own_masked@)
    }

    /// The server's set masked by both parties (empty until it is known).
    pub closed spec fn peer_doubly_masked(&self) -> Seq<Point> {
        self.peer_doubly_masked@
    }

    /// Generates the client's set of `set_size` elements, shuffles it, draws
    /// a random secret and masks the set with it.
    pub fn start(set_size: usize) -> (s: ClientSession)
        ensures
            s.own_masked().to_multiset() == masked_inputs(set_size as nat, s.secret()).to_multiset(),
            s.peer_doubly_masked() == Seq::<Point>::empty(),
            !is_zero_scalar(s.secret()),
            forall|k: int| 0 <= k < set_size ==> mask_facts(#[trigger] generated_encoding(k), s.secret()),
    {
        let input = generate_points(set_size);
        let secret = draw_secret();
        let own_masked = shuffle_and_mask(input, &secret);
        assert(scaled(views(input@), secret@) =~= masked_inputs(set_size as nat, secret@));
        assert forall|k: int| 0 <= k < set_size implies mask_facts(#[trigger] generated_encoding(k), secret@) by {
            assert(views(input@)[k] == generated_encoding(k));
            assert(views(input@).contains(generated_encoding(k)));
        }
        ClientSession { secret, own_masked, peer_doubly_masked: Vec::new() }
    }

    /// Takes the server's set, masked with the server's secret, shuffles it
    /// and masks it with the client's secret. Returns the two messages to
    /// send, in order: that doubly masked set, then the client's own masked
    /// set.
    pub fn on_server_set(&mut self, server_masked: Vec<Point>) -> (sent: (Vec<Point>, Vec<Point>))
        ensures
            views(sent.0@).to_multiset() == scaled(views(server_masked@), old(self).secret()).to_multiset(),
            forall|e: Seq<u8>| #[trigger] views(server_masked@).contains(e) ==> mask_facts(e, old(self).secret()),
            views(sent.1@) == old(self).own_masked(),
            final(self).secret() == old(self).secret(),
            final(self).own_masked() == old(self).own_masked(),
            final(self).peer_doubly_masked() == sent.0@,
    {
        let doubly = shuffle_and_mask(server_masked, &self.secret);
        self.peer_doubly_masked = doubly.clone();
        (doubly, self.own_masked.clone())
    }

    /// Takes the client's own set masked by both parties and counts the
    /// elements that it shares with the server's doubly masked set.
    pub fn finish(&self, own_doubly_masked: Vec<Point>) -> (count: usize)
        ensures
            count == intersection_size(own_doubly_masked@, self.peer_doubly_masked()),
    {
        intersect_size(own_doubly_masked, self.peer_doubly_masked.clone())
    }
}

/// The server: it holds its secret, its own set once masked by both parties,
/// and the client's set once masked by both parties.
pub struct ServerSession {
    secret: [u8; 32],
    own_doubly_masked: Vec<Point>,
    peer_doubly_masked: Vec<Point>,
}

impl ServerSession {
    /// The bytes of the server's secret scalar.
    pub closed spec fn secret(&self) -> Seq<u8> {
        self.secret@
    }

    /// The server's set masked by both parties (empty until it is received).
    pub closed spec fn own_doubly_masked(&self) -> Seq<Point> {
        self.own_doubly_masked@
    }

    /// The client's set masked by both parties (empty until it is computed).
    pub closed spec fn peer_doubly_masked(&self) -> Seq<Point> {
        self.peer_doubly_masked@
    }

    /// Generates the server's set of `set_size` elements, shuffles it, draws
    /// a random secret and masks the set with it. Returns the session and
    /// the masked set, the first message to send.
    pub fn start(set_size: usize) -> (r: (ServerSession, Vec<Point>))
        ensures
            views(r.1@).to_multiset() == masked_inputs(set_size as nat, r.0.secret()).to_multiset(),
            r.0.own_doubly_masked() == Seq::<Point>::empty(),
            r.0.peer_doubly_masked() == Seq::<Point>::empty(),
            !is_zero_scalar(r.0.secret()),
            forall|k: int| 0 <= k < set_size ==> mask_facts(#[trigger] generated_encoding(k), r.0.secret()),
    {
        let input = generate_points(set_size);
        let secret = draw_secret();
        let masked = shuffle_and_mask(input, &secret);
        assert(scaled(views(input@), secret@) =~= masked_inputs(set_size as nat, secret@));
        assert forall|k: int| 0 <= k < set_size implies mask_facts(#[trigger] generated_encoding(k), secret@) by {
            assert(views(input@)[k] == generated_encoding(k));
            assert(views(input@).contains(generated_encoding(k)));
        }
        (ServerSession { secret, own_doubly_masked: Vec::new(), peer_doubly_masked: Vec::new() }, masked)
    }

    /// Takes the server's own set, masked by both parties, as the client
    /// sent it back.
    pub fn on_own_doubly_masked(&mut self, own_doubly_masked: Vec<Point>)
        ensures
            final(self).secret() == old(self).secret(),
            final(self).own_doubly_masked() == own_doubly_masked@,
            final(self).peer_doubly_masked() == old(self).peer_doubly_masked(),
    {
        self.own_doubly_masked = own_doubly_masked;
    }

    /// Takes the client's set, masked with the client's secret, shuffles it
    /// and masks it with the server's secret. Returns that doubly masked
    /// set, the message to send back.
    pub fn on_client_set(&mut self, client_masked: Vec<Point>) -> (sent: Vec<Point>)
        ensures
            views(sent@).to_multiset() == scaled(views(client_masked@), old(self).secret()).to_multiset(),
            forall|e: Seq<u8>| #[trigger] views(client_masked@).contains(e) ==> mask_facts(e, old(self).secret()),
            final(self).secret() == old(self).secret(),
            final(self).own_doubly_masked() == old(self).own_doubly_masked(),
            final(self).peer_doubly_masked() == sent@,
    {
        let doubly = shuffle_and_mask(client_masked, &self.secret);
        self.peer_doubly_masked = doubly.clone();
        doubly
    }

    /// Counts the elements that the two doubly masked sets share.
    pub fn finish(&self) -> (count: usize)
        ensures
            count == intersection_size(self.peer_doubly_masked(), self.own_doubly_masked()),
    {
        intersect_size(self.peer_doubly_masked.clone(), self.own_doubly_masked.clone())
    }
}

/// The encodings of the first `n` generated input elements, each multiplied
/// by the scalar with bytes `first` and then by the one with bytes `second`.
pub open spec fn doubly_masked_inputs(n: nat, first: Seq<u8>, second: Seq<u8>) -> Seq<Seq<u8>> {
    Seq::new(n, |i: int| ristretto_scale(ristretto_scale(generated_encoding(i), first), second))
}

proof fn lemma_doubly_masked(masked: Seq<Point>, doubly: Seq<Point>, n: nat, first: Seq<u8>, second: Seq<u8>)
    requires
        views(masked).to_multiset() == masked_inputs(n, first).to_multiset(),
        views(doubly).to_multiset() == scaled(views(masked), second).to_multiset(),
    ensures
        encodings(doubly) == doubly_masked_inputs(n, first, second).to_set(),
{
    let f = |e: Seq<u8>| ristretto_scale(e, second);
    lemma_map_values_to_multiset(views(masked), masked_inputs(n, first), f);
    assert(scaled(masked_inputs(n, first), second) =~= doubly_masked_inputs(n, first, second));
    lemma_same_multiset_same_set(views(doubly), doubly_masked_inputs(n, first, second));
}

/// What a run computes. When every message arrives as it was sent (the
/// client's masked set of `n_client` elements under secret `a`, the server's
/// masked set of `n_server` elements under secret `b`, and the two doubly
/// masked sets, each as the contracts of the session methods describe it),
/// the count that both parties compute (`ClientSession::finish` on the
/// client's doubly masked set, `ServerSession::finish`) is the number of
/// common encodings between the client's inputs masked with `a` then `b` and
/// the server's inputs masked with `b` then `a`.
pub proof fn lemma_protocol_outcome(
    n_client: nat,
    n_server: nat,
    a: Seq<u8>,
    b: Seq<u8>,
    client_masked: Seq<Point>,
    server_masked: Seq<Point>,
    client_doubly: Seq<Point>,
    server_doubly: Seq<Point>,
)
    requires
        views(client_masked).to_multiset() == masked_inputs(n_client, a).to_multiset(),
        views(server_masked).to_multiset() == masked_inputs(n_server, b).to_multiset(),
        views(server_doubly).to_multiset() == scaled(views(server_masked), a).to_multiset(),
        views(client_doubly).to_multiset() == scaled(views(client_masked), b).to_multiset(),
    ensures
        intersection_size(client_doubly, server_doubly) == doubly_masked_inputs(
            n_client,
            a,
            b,
        ).to_set().intersect(doubly_masked_inputs(n_server, b, a).to_set()).len(),
{
    lemma_doubly_masked(client_masked, client_doubly, n_client, a, b);
    lemma_doubly_masked(server_masked, server_doubly, n_server, b, a);
}

/// The `i`-th generated input element masked with `first`, then `second`.
pub open spec fn doubly_masked(i: int, first: Seq<u8>, second: Seq<u8>) -> Seq<u8> {
    ristretto_scale(ristretto_scale(generated_encoding(i), first), second)
}

/// A run counts the plain intersection of the two parties' inputs. Both
/// sides generate the inputs `0..n`, so when every message arrives as it was
/// sent, the count that both parties compute is `min(n_client, n_server)`.
/// The premises are the contracts of the session methods (`start` of each
/// party, which also ensures that its secret is not zero modulo the group
/// order, `ClientSession::on_server_set`, `ServerSession::on_client_set`),
/// and generated inputs that are pairwise distinct. Their bytes are
/// (`lemma_generated_inputs_distinct`), but nothing can promise that the
/// hashes of distinct bytes differ.
pub proof fn lemma_protocol_counts_common_inputs(
    n_client: nat,
    n_server: nat,
    a: Seq<u8>,
    b: Seq<u8>,
    client_masked: Seq<Point>,
    server_masked: Seq<Point>,
    client_doubly: Seq<Point>,
    server_doubly: Seq<Point>,
)
    requires
        views(client_masked).to_multiset() == masked_inputs(n_client, a).to_multiset(),
        forall|k: int| 0 <= k < n_client ==> mask_facts(#[trigger] generated_encoding(k), a),
        views(server_masked).to_multiset() == masked_inputs(n_server, b).to_multiset(),
        forall|k: int| 0 <= k < n_server ==> mask_facts(#[trigger] generated_encoding(k), b),
        views(server_doubly).to_multiset() == scaled(views(server_masked), a).to_multiset(),
        forall|e: Seq<u8>| #[trigger] views(server_masked).contains(e) ==> mask_facts(e, a),
        views(client_doubly).to_multiset() == scaled(views(client_masked), b).to_multiset(),
        forall|e: Seq<u8>| #[trigger] views(client_masked).contains(e) ==> mask_facts(e, b),
        !is_zero_scalar(a),
        !is_zero_scalar(b),
        forall|i: int, j: int|
            0 <= i < j < n_client || 0 <= i < j < n_server ==> #[trigger] generated_encoding(i)
                != #[trigger] generated_encoding(j),
    ensures
        intersection_size(client_doubly, server_doubly) == if n_client <= n_server {
            n_client
        } else {
            n_server
        },
{
    lemma_protocol_outcome(n_client, n_server, a, b, client_masked, server_masked, client_doubly, server_doubly);
    lemma_same_multiset_same_set(views(client_masked), masked_inputs(n_client, a));
    lemma_same_multiset_same_set(views(server_masked), masked_inputs(n_server, b));
    let n = if n_client <= n_server { n_client } else { n_server };
    let d1 = doubly_masked_inputs(n_client, a, b);
    let d2 = doubly_masked_inputs(n_server, b, a);
    let common = Seq::new(n, |i: int| doubly_masked(i, a, b));
    // Masking with a then b sends distinct client inputs to distinct elements.
    assert forall|i: int, j: int|
        0 <= i < n_client && 0 <= j < n_client && #[trigger] doubly_masked(i, a, b)
            == #[trigger] doubly_masked(j, a, b) implies i == j by {
        let gi = generated_encoding(i);
        let gj = generated_encoding(j);
        assert(mask_facts(gi, a) && mask_facts(gj, a));
        assert(masked_inputs(n_client, a)[i] == ristretto_scale(gi, a));
        assert(views(client_masked).to_set().contains(ristretto_scale(gi, a)));
        assert(views(client_masked).contains(ristretto_scale(gi, a)));
        assert(mask_facts(ristretto_scale(gi, a), b));
        assert(ristretto_scale(ristretto_scale(gj, a), b) == ristretto_scale(ristretto_scale(gi, a), b));
        assert(ristretto_scale(gj, a) == ristretto_scale(gi, a));
        assert(gj == gi);
        if i < j {
            assert(generated_encoding(i) != generated_encoding(j));
        } else if j < i {
            assert(generated_encoding(j) != generated_encoding(i));
        }
    }
    // A server input masked with b then a is that input masked with a then b.
    assert forall|j: int| 0 <= j < n_server implies #[trigger] doubly_masked(j, b, a) == doubly_masked(j, a, b) by {
        let gj = generated_encoding(j);
        assert(mask_facts(gj, b));
        assert(mask_commutes(gj, b));
        assert(ristretto_scale(ristretto_scale(gj, b), a) == ristretto_scale(ristretto_scale(gj, a), b));
    }
    assert forall|x: Seq<u8>| #[trigger] d1.to_set().intersect(d2.to_set()).contains(x) == common.to_set().contains(x) by {
        if d1.contains(x) && d2.contains(x) {
            let i = choose|i: int| 0 <= i < d1.len() && d1[i] == x;
            let j = choose|j: int| 0 <= j < d2.len() && d2[j] == x;
            assert(d1[i] == doubly_masked(i, a, b));
            assert(d2[j] == doubly_masked(j, b, a));
            if j < n_client {
                assert(doubly_masked(j, b, a) == doubly_masked(j, a, b));
                assert(i == j);
            } else {
                // i < n_client <= j < n_server: masking with b then a keeps them apart.
                let gi = generated_encoding(i);
                let gj = generated_encoding(j);
                assert(mask_facts(gi, a) && mask_commutes(gi, a));
                assert(ristretto_scale(ristretto_scale(gi, a), b) == ristretto_scale(ristretto_scale(gi, b), a));
                assert(mask_facts(gi, b) && mask_facts(gj, b));
                assert(masked_inputs(n_server, b)[j] == ristretto_scale(gj, b));
                assert(views(server_masked).to_set().contains(ristretto_scale(gj, b)));
                assert(views(server_masked).contains(ristretto_scale(gj, b)));
                assert(mask_facts(ristretto_scale(gj, b), a));
                assert(ristretto_scale(ristretto_scale(gi, b), a) == ristretto_scale(ristretto_scale(gj, b), a));
                assert(ristretto_scale(gi, b) == ristretto_scale(gj, b));
                assert(gi == gj);
                assert(generated_encoding(i) != generated_encoding(j));
            }
            assert(common[i] == x);
        }
        if common.contains(x) {
            let i = choose|i: int| 0 <= i < common.len() && common[i] == x;
            assert(d1[i] == x);
            assert(d2[i] == doubly_masked(i, b, a));
            assert(d2[i] == x);
        }
    }
    assert(d1.to_set().intersect(d2.to_set()) =~= common.to_set());
    assert forall|i: int, j: int| 0 <= i < common.len() && 0 <= j < common.len() && i != j implies common[i] != common[j] by {
        if common[i] == common[j] {
            assert(doubly_masked(i, a, b) == doubly_masked(j, a, b));
        }
    }
    common.unique_seq_to_set();
}

} // verus!
