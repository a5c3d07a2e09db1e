//! Switch labels: a source route of per-hop directives in eight bytes.

use vstd::prelude::*;

verus! {

/// A label is always this many bytes on the wire.
pub const LABEL_LEN: usize = 8;

/// A path is a list of directives, one per hop, in the order the hops are taken.
/// A directive is a non-zero byte; zero only ever fills the unused tail of a label.
pub open spec fn is_path(p: Seq<u8>) -> bool {
    &&& p.len() <= LABEL_LEN
    &&& forall|i: int| 0 <= i < p.len() ==> p[i] != 0
}

/// The eight bytes that carry `p`: its directives in order, then zeros.
pub open spec fn encode_path(p: Seq<u8>) -> Seq<u8> {
    Seq::new(
        LABEL_LEN as nat,
        |i: int|
            if i < p.len() {
                p[i]
            } else {
                0u8
            },
    )
}

/// Eight bytes are a label if nothing but zeros follows the first zero.
pub open spec fn is_label_encoding(b: Seq<u8>) -> bool {
    &&& b.len() == LABEL_LEN
    &&& forall|i: int, j: int| 0 <= i < j < LABEL_LEN && b[i] == 0 ==> b[j] == 0
}

/// How many non-zero bytes stand at the front of `b`.
pub open spec fn leading_directives(b: Seq<u8>) -> nat
    decreases b.len(),
{
    if b.len() == 0 || b[0] == 0 {
        0
    } else {
        1 + leading_directives(b.skip(1))
    }
}

/// The path that label bytes carry: the bytes before the first zero.
pub open spec fn decode_path(b: Seq<u8>) -> Seq<u8> {
    b.take(leading_directives(b) as int)
}

/// What one hop leaves of label bytes: the first byte goes, a zero joins the tail.
pub open spec fn consumed_encoding(b: Seq<u8>) -> Seq<u8> {
    b.skip(1).push(0u8)
}

pub proof fn lemma_leading_directives(b: Seq<u8>)
    ensures
        leading_directives(b) <= b.len(),
        forall|i: int| 0 <= i < leading_directives(b) ==> b[i] != 0,
        leading_directives(b) < b.len() ==> b[leading_directives(b) as int] == 0,
    decreases b.len(),
{
    if b.len() == 0 || b[0] == 0 {
    } else {
        let rest = b.skip(1);
        lemma_leading_directives(rest);
        assert forall|i: int| 0 <= i < leading_directives(b) implies b[i] != 0 by {
            if i > 0 {
                assert(b[i] == rest[i - 1]);
            }
        }
        if leading_directives(b) < b.len() {
            assert(b[leading_directives(b) as int] == rest[leading_directives(rest) as int]);
        }
    }
}

/// The bytes of a path are a label, and they carry that path and no other.
pub proof fn lemma_decode_of_encode_path(p: Seq<u8>)
    requires
        is_path(p),
    ensures
        is_label_encoding(encode_path(p)),
        decode_path(encode_path(p)) == p,
{
    let b = encode_path(p);
    lemma_leading_directives(b);
    let n = leading_directives(b);
    if n < p.len() {
        assert(b[n as int] == p[n as int]);
    }
    if n > p.len() {
        assert(b[p.len() as int] == 0);
    }
    assert(b.take(n as int) =~= p);
}

/// Label bytes are exactly the bytes of the path that they carry.
pub proof fn lemma_encode_of_decode_path(b: Seq<u8>)
    requires
        is_label_encoding(b),
    ensures
        is_path(decode_path(b)),
        encode_path(decode_path(b)) == b,
{
    lemma_leading_directives(b);
    let n = leading_directives(b);
    let p = decode_path(b);
    assert forall|i: int| 0 <= i < LABEL_LEN implies encode_path(p)[i] == b[i] by {
        if i >= n {
            if i > n {
                assert(b[n as int] == 0);
            }
        }
    }
    assert(encode_path(p) =~= b);
}

/// Consuming the first directive of a label built for a path leaves, byte for
/// byte, the label built for the rest of the path.
pub proof fn lemma_consume_matches_suffix(p: Seq<u8>)
    requires
        is_path(p),
        p.len() >= 1,
    ensures
        is_path(p.skip(1)),
        consumed_encoding(encode_path(p)) == encode_path(p.skip(1)),
{
    assert(consumed_encoding(encode_path(p)) =~= encode_path(p.skip(1)));
}

/// Putting a directive in front of a path and consuming it again gives the path back.
pub proof fn lemma_consume_undoes_prepend(d: u8, p: Seq<u8>)
    requires
        is_path(p),
        p.len() < LABEL_LEN,
        d != 0,
    ensures
        is_path(seq![d] + p),
        (seq![d] + p)[0] == d,
        (seq![d] + p).skip(1) == p,
        consumed_encoding(encode_path(seq![d] + p)) == encode_path(p),
{
    let q = seq![d] + p;
    assert(q.skip(1) =~= p);
    lemma_consume_matches_suffix(q);
}

/// An encoded source route. Its view is the path: the directives still to be
/// followed, first hop first.
#[derive(Clone, Copy, Debug)]
pub struct SwitchLabel {
    bytes: [u8; 8],
    len: usize,
}

impl View for SwitchLabel {
    type V = Seq<u8>;

    closed spec fn view(&self) -> Seq<u8> {
        self.bytes@.take(self.len as int)
    }
}

impl SwitchLabel {
    /// The bytes hold the path and then zeros.
    pub closed spec fn wf(&self) -> bool {
        &&& self.len <= LABEL_LEN
        &&& forall|i: int| 0 <= i < self.len ==> self.bytes@[i] != 0
        &&& forall|i: int| self.len <= i < LABEL_LEN ==> self.bytes@[i] == 0
    }

    pub proof fn lemma_view_is_path(&self)
        requires
            self.wf(),
        ensures
            is_path(self@),
    {
    }

    /// The label of the node itself: no hop left to take.
    pub fn empty() -> (label: SwitchLabel)
        ensures
            label.wf(),
            label@ == Seq::<u8>::empty(),
    {
        let label = SwitchLabel { bytes: [0u8; 8], len: 0 };
        assert(label@ =~= Seq::<u8>::empty());
        label
    }

    /// Builds the label for `path`, first hop first.
    pub fn build(path: &[u8]) -> (built: Option<SwitchLabel>)
        ensures
            built is Some <==> is_path(path@),
            built matches Some(label) ==> label.wf() && label@ == path@,
    {
        if path.len() > LABEL_LEN {
            return None;
        }
        let mut bytes: [u8; 8] = [0u8; 8];
        let mut i: usize = 0;
        while i < path.len()
            invariant
                i <= path@.len() <= LABEL_LEN,
                forall|k: int| 0 <= k < i ==> bytes@[k] == path@[k] && path@[k] != 0,
                forall|k: int| i <= k < LABEL_LEN ==> bytes@[k] == 0,
            decreases path@.len() - i,
        {
            if path[i] == 0 {
                return None;
            }
            bytes[i] = path[i];
            i += 1;
        }
        let label = SwitchLabel { bytes, len: path.len() };
        assert(label@ =~= path@);
        Some(label)
    }

    /// How many hops the label still names.
    pub fn len(&self) -> (n: usize)
        requires
            self.wf(),
        ensures
            n == self@.len(),
            n <= LABEL_LEN,
    {
        self.len
    }

    /// Whether the label names no further hop, so that the packet has arrived.
    pub fn is_empty(&self) -> (none_left: bool)
        requires
            self.wf(),
        ensures
            none_left == (self@.len() == 0),
    {
        self.len == 0
    }

    /// The directive of the `i`-th hop still to be taken.
    pub fn directive(&self, i: usize) -> (d: u8)
        requires
            self.wf(),
            i < self@.len(),
        ensures
            d == self@[i as int],
            d != 0,
    {
        self.bytes[i]
    }

    /// Takes the first directive off the label: the hop to take now, and the
    /// label for the rest of the way.
    pub fn consume(&self) -> (step: Option<(u8, SwitchLabel)>)
        requires
            self.wf(),
        ensures
            step is Some <==> self@.len() > 0,
            step matches Some((d, rest)) ==> {
                &&& d == self@[0]
                &&& d != 0
                &&& rest.wf()
                &&& rest@ == self@.skip(1)
                &&& encode_path(rest@) == consumed_encoding(encode_path(self@))
            },
    {
        if self.len == 0 {
            return None;
        }
        let d = self.bytes[0];
        let mut bytes: [u8; 8] = [0u8; 8];
        let mut i: usize = 1;
        while i < LABEL_LEN
            invariant
                1 <= i <= LABEL_LEN,
                forall|k: int| 0 <= k < i - 1 ==> bytes@[k] == self.bytes@[k + 1],
                forall|k: int| i - 1 <= k < LABEL_LEN ==> bytes@[k] == 0,
            decreases LABEL_LEN - i,
        {
            bytes[i - 1] = self.bytes[i];
            i += 1;
        }
        let rest = SwitchLabel { bytes, len: self.len - 1 };
        proof {
            assert(rest@ =~= self@.skip(1));
            lemma_consume_matches_suffix(self@);
        }
        Some((d, rest))
    }

    /// Puts one more hop in front of the path.
    pub fn prepend(&self, d: u8) -> (longer: Option<SwitchLabel>)
        requires
            self.wf(),
        ensures
            longer is Some <==> d != 0 && self@.len() < LABEL_LEN,
            longer matches Some(label) ==> label.wf() && label@ == seq![d] + self@,
    {
        if d == 0 || self.len >= LABEL_LEN {
            return None;
        }
        let mut bytes: [u8; 8] = [0u8; 8];
        bytes[0] = d;
        let mut i: usize = 1;
        while i < LABEL_LEN
            invariant
                1 <= i <= LABEL_LEN,
                bytes@[0] == d,
                forall|k: int| 1 <= k < i ==> bytes@[k] == self.bytes@[k - 1],
                forall|k: int| i <= k < LABEL_LEN ==> bytes@[k] == 0,
            decreases LABEL_LEN - i,
        {
            bytes[i] = self.bytes[i - 1];
            i += 1;
        }
        let label = SwitchLabel { bytes, len: self.len + 1 };
        assert(label@ =~= seq![d] + self@);
        Some(label)
    }

    /// The eight bytes that carry the label on the wire.
    pub fn to_bytes(&self) -> (out: [u8; 8])
        requires
            self.wf(),
        ensures
            out@ == encode_path(self@),
            is_label_encoding(out@),
    {
        proof {
            assert(self.bytes@ =~= encode_path(self@));
            lemma_decode_of_encode_path(self@);
        }
        self.bytes
    }

    /// Reads a label from its eight bytes. Bytes with anything but zeros after
    /// the first zero are no label.
    pub fn from_bytes(b: &[u8]) -> (parsed: Option<SwitchLabel>)
        ensures
            parsed is Some <==> is_label_encoding(b@),
            parsed matches Some(label) ==> {
                &&& label.wf()
                &&& label@ == decode_path(b@)
                &&& encode_path(label@) == b@
            },
    {
        if b.len() != LABEL_LEN {
            return None;
        }
        let mut bytes: [u8; 8] = [0u8; 8];
        let mut len: usize = 0;
        let mut i: usize = 0;
        while i < LABEL_LEN
            invariant
                i <= LABEL_LEN == b@.len(),
                len <= i,
                forall|k: int| 0 <= k < i ==> bytes@[k] == b@[k],
                forall|k: int| i <= k < LABEL_LEN ==> bytes@[k] == 0,
                forall|k: int| 0 <= k < len ==> b@[k] != 0,
                forall|k: int| len <= k < i ==> b@[k] == 0,
            decreases LABEL_LEN - i,
        {
            if b[i] != 0 {
                if len != i {
                    proof {
                        assert(b@[len as int] == 0);
                    }
                    return None;
                }
                len += 1;
            }
            bytes[i] = b[i];
            i += 1;
        }
        let label = SwitchLabel { bytes, len };
        proof {
            assert(bytes@ =~= b@);
            lemma_leading_directives(b@);
            let n = leading_directives(b@);
            if n < len {
                assert(b@[n as int] == 0);
            }
            if n > len {
                assert(b@[len as int] != 0);
            }
            lemma_encode_of_decode_path(b@);
        }
        Some(label)
    }
}

} // verus!
