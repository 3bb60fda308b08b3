//! The binary codec of the tree: a presence flag, then each node in preorder
//! as its payload bytes followed by a four-byte big-endian child count.
//! Payload types bring their own byte encoding through the [`ByteCodec`]
//! trait; the scalar byte work is done by the `bytebuffer` crate.

use vstd::prelude::*;

use crate::tree::Node;
use crate::tree::NodeInfo;
use crate::tree::Tree;
use crate::tree::TreeV;
use crate::tree::info_chain;
use crate::tree::kids;
use crate::tree::spec_alloc;
use crate::tree::spec_append;

verus! {

/// Decoding failed: the byte stream was truncated or malformed.
#[derive(Clone, Copy, Debug, PartialEq, Eq, Structural)]
pub enum DecodeErr {
    Malformed,
}

/// Decoding from a fallible byte source failed: either the bytes that arrived
/// were truncated or malformed, or the source itself failed first.
#[derive(Debug, PartialEq, Eq)]
pub enum IoDecodeErr<E> {
    Malformed,
    Io(E),
}

/// The four big-endian bytes of `x`.
pub open spec fn be_bytes(x: u32) -> Seq<u8> {
    seq![(x >> 24) as u8, (x >> 16) as u8, (x >> 8) as u8, x as u8]
}

/// The value read from four big-endian bytes.
pub open spec fn be_val(b0: u8, b1: u8, b2: u8, b3: u8) -> u32 {
    ((b0 as u32) << 24) | ((b1 as u32) << 16) | ((b2 as u32) << 8) | (b3 as u32)
}

pub proof fn lemma_be_val_of_be_bytes(x: u32)
    ensures
        be_val(be_bytes(x)[0], be_bytes(x)[1], be_bytes(x)[2], be_bytes(x)[3]) == x,
{
    assert(((((x >> 24) as u8) as u32) << 24) | ((((x >> 16) as u8) as u32) << 16)
        | ((((x >> 8) as u8) as u32) << 8) | ((x as u8) as u32) == x) by (bit_vector);
}

pub proof fn lemma_be_bytes_of_be_val(b0: u8, b1: u8, b2: u8, b3: u8)
    ensures
        be_bytes(be_val(b0, b1, b2, b3)) == seq![b0, b1, b2, b3],
{
    let x = be_val(b0, b1, b2, b3);
    assert(((((b0 as u32) << 24) | ((b1 as u32) << 16) | ((b2 as u32) << 8) | (b3 as u32)) >> 24) as u8 == b0) by (bit_vector);
    assert(((((b0 as u32) << 24) | ((b1 as u32) << 16) | ((b2 as u32) << 8) | (b3 as u32)) >> 16) as u8 == b1) by (bit_vector);
    assert(((((b0 as u32) << 24) | ((b1 as u32) << 16) | ((b2 as u32) << 8) | (b3 as u32)) >> 8) as u8 == b2) by (bit_vector);
    assert((((b0 as u32) << 24) | ((b1 as u32) << 16) | ((b2 as u32) << 8) | (b3 as u32)) as u8 == b3) by (bit_vector);
    assert(be_bytes(x) =~= seq![b0, b1, b2, b3]);
}

/// Relies on bytebuffer::ByteBuffer::write_u32, with ByteBuffer::new and
/// ByteBuffer::into_vec around it: a fresh buffer is big-endian, and writing
/// one u32 leaves exactly its four big-endian bytes in the buffer.
#[verifier::external_body]
fn u32_to_be(x: u32) -> (r: Vec<u8>)
    ensures
        r@ == be_bytes(x),
{
    let mut b = bytebuffer::ByteBuffer::new();
    b.write_u32(x);
    b.into_vec()
}

/// Relies on bytebuffer::ByteBuffer::read_u32, with ByteBuffer::from_bytes
/// around it: a fresh buffer is big-endian, and with four bytes available the
/// read returns the big-endian value and cannot fail.
#[verifier::external_body]
fn u32_from_be(bytes: &Vec<u8>, pos: usize) -> (r: u32)
    requires
        pos + 4 <= bytes@.len(),
    ensures
        r == be_val(bytes@[pos as int], bytes@[pos as int + 1], bytes@[pos as int + 2], bytes@[pos as int + 3]),
{
    let mut b = bytebuffer::ByteBuffer::from_bytes(&bytes[pos..pos + 4]);
    b.read_u32().unwrap()
}

/// A payload type with a byte encoding. `enc` is the encoding; `dec` says
/// what reading one value from a byte sequence yields; the two proof
/// obligations tie them together, so that every implementation round-trips.
pub trait ByteCodec: Sized {
    /// The byte encoding of a value.
    spec fn enc(&self) -> Seq<u8>;

    /// The value read from `bytes` at `pos` and the position after it, or
    /// `None` when no value can be read there.
    spec fn dec(bytes: Seq<u8>, pos: int) -> Option<(Self, int)>;

    /// A successful read consumes exactly the encoding of the value it
    /// returns.
    proof fn lemma_dec_ok(bytes: Seq<u8>, pos: int)
        requires
            0 <= pos <= bytes.len(),
        ensures
            match Self::dec(bytes, pos) {
                Some((v, p)) => pos <= p <= bytes.len() && bytes.subrange(pos, p) == v.enc(),
                None => true,
            },
    ;

    /// Wherever an encoding sits, reading yields it back.
    proof fn lemma_enc_dec(v: Self, bytes: Seq<u8>, pos: int)
        requires
            0 <= pos,
            pos + v.enc().len() <= bytes.len(),
            bytes.subrange(pos, pos + v.enc().len() as int) == v.enc(),
        ensures
            Self::dec(bytes, pos) == Some((v, pos + v.enc().len() as int)),
    ;

    /// Appends the encoding of `self` to `out`.
    fn encode(&self, out: &mut Vec<u8>)
        ensures
            final(out)@ == old(out)@ + self.enc(),
    ;

    /// Reads one value from `bytes` at `pos`.
    fn decode(bytes: &Vec<u8>, pos: usize) -> (r: Option<(Self, usize)>)
        requires
            pos <= bytes@.len(),
        ensures
            match r {
                Some((v, p)) => Self::dec(bytes@, pos as int) == Some((v, p as int)),
                None => Self::dec(bytes@, pos as int) is None,
            },
    ;
}

impl ByteCodec for i32 {
    open spec fn enc(&self) -> Seq<u8> {
        be_bytes(*self as u32)
    }

    open spec fn dec(bytes: Seq<u8>, pos: int) -> Option<(i32, int)> {
        if 0 <= pos && pos + 4 <= bytes.len() {
            Some((be_val(bytes[pos], bytes[pos + 1], bytes[pos + 2], bytes[pos + 3]) as i32, pos + 4))
        } else {
            None
        }
    }

    proof fn lemma_dec_ok(bytes: Seq<u8>, pos: int) {
        if pos + 4 <= bytes.len() {
            let b0 = bytes[pos];
            let b1 = bytes[pos + 1];
            let b2 = bytes[pos + 2];
            let b3 = bytes[pos + 3];
            let v = be_val(b0, b1, b2, b3) as i32;
            assert((be_val(b0, b1, b2, b3) as i32) as u32 == be_val(b0, b1, b2, b3)) by (bit_vector);
            lemma_be_bytes_of_be_val(b0, b1, b2, b3);
            assert(bytes.subrange(pos, pos + 4) =~= seq![b0, b1, b2, b3]);
        }
    }

    proof fn lemma_enc_dec(v: i32, bytes: Seq<u8>, pos: int) {
        lemma_be_val_of_be_bytes(v as u32);
        assert(bytes[pos] == v.enc()[0]);
        assert(bytes[pos + 1] == v.enc()[1]);
        assert(bytes[pos + 2] == v.enc()[2]);
        assert(bytes[pos + 3] == v.enc()[3]);
        assert((v as u32) as i32 == v) by (bit_vector);
    }

    fn encode(&self, out: &mut Vec<u8>) {
        let mut b = u32_to_be(*self as u32);
        out.append(&mut b);
    }

    fn decode(bytes: &Vec<u8>, pos: usize) -> (r: Option<(i32, usize)>) {
        if bytes.len() - pos >= 4 {
            let x = u32_from_be(bytes, pos);
            Some((#[verifier::truncate] (x as i32), pos + 4))
        } else {
            None
        }
    }
}

// ---------------------------------------------------------------------------
// The wire format of a whole tree.
// ---------------------------------------------------------------------------

/// The payload bytes of slot `id`: its payload's encoding, or nothing when
/// the slot is not a live node.
pub open spec fn payload_enc<T: ByteCodec>(v: TreeV<T>, id: usize) -> Seq<u8> {
    if v.valid(id) {
        v.nodes[id as int].data.unwrap().enc()
    } else {
        Seq::empty()
    }
}

/// The node blocks of an annotated preorder listing: payload bytes, then the
/// child count as four big-endian bytes, for each entry in turn.
pub open spec fn enc_info_list<T: ByteCodec>(v: TreeV<T>, infos: Seq<NodeInfo>) -> Seq<u8>
    decreases infos.len(),
{
    if infos.len() == 0 {
        Seq::empty()
    } else {
        payload_enc(v, infos[0].id) + be_bytes(infos[0].child_count as u32) + enc_info_list(v, infos.drop_first())
    }
}

proof fn lemma_enc_info_list_snoc<T: ByteCodec>(v: TreeV<T>, infos: Seq<NodeInfo>, x: NodeInfo)
    ensures
        enc_info_list(v, infos.push(x)) == enc_info_list(v, infos) + payload_enc(v, x.id) + be_bytes(x.child_count as u32),
    decreases infos.len(),
{
    reveal_with_fuel(enc_info_list, 3);
    if infos.len() == 0 {
        assert(infos.push(x)[0] == x);
        assert(infos.push(x).drop_first() =~= Seq::<NodeInfo>::empty());
        assert(enc_info_list(v, infos.push(x)) =~= enc_info_list(v, infos) + payload_enc(v, x.id) + be_bytes(x.child_count as u32));
    } else {
        assert(infos.push(x)[0] == infos[0]);
        assert(infos.push(x).drop_first() =~= infos.drop_first().push(x));
        lemma_enc_info_list_snoc(v, infos.drop_first(), x);
        assert(enc_info_list(v, infos.push(x)) =~= enc_info_list(v, infos) + payload_enc(v, x.id) + be_bytes(x.child_count as u32));
    }
}

/// The encoding of a whole tree: one byte saying whether a root exists,
/// then the root's preorder node blocks.
pub open spec fn spec_tree_enc<T: ByteCodec>(v: TreeV<T>) -> Seq<u8> {
    match v.root {
        Some(r) => if v.valid(r) {
            seq![1u8] + enc_info_list(v, v.sub_tree_infos(r))
        } else {
            seq![0u8]
        },
        None => seq![0u8],
    }
}

/// Reading one child block list: a four-byte count, then that many nodes,
/// each appended as last child of `parent` and recursed into.
pub open spec fn spec_dec_children<T: ByteCodec>(v: TreeV<T>, parent: usize, bytes: Seq<u8>, pos: int) -> Option<(TreeV<T>, int)>
    decreases bytes.len() - pos, 0int,
{
    if 0 <= pos && pos + 4 <= bytes.len() {
        let cnt = be_val(bytes[pos], bytes[pos + 1], bytes[pos + 2], bytes[pos + 3]);
        spec_dec_n(v, parent, bytes, pos + 4, cnt as nat)
    } else {
        None
    }
}

/// Reading `k` sibling node blocks in a row.
pub open spec fn spec_dec_n<T: ByteCodec>(v: TreeV<T>, parent: usize, bytes: Seq<u8>, pos: int, k: nat) -> Option<(TreeV<T>, int)>
    decreases bytes.len() - pos, k + 1,
{
    if k == 0 {
        Some((v, pos))
    } else if 0 <= pos {
        match T::dec(bytes, pos) {
            None => None,
            Some((x, p1)) => if pos <= p1 <= bytes.len() {
                let (v1, cid) = spec_alloc(v, x);
                let v2 = spec_append(v1, parent, cid);
                match spec_dec_children(v2, cid, bytes, p1) {
                    None => None,
                    Some((v3, p2)) => if pos < p2 && p2 <= bytes.len() {
                        spec_dec_n(v3, parent, bytes, p2, (k - 1) as nat)
                    } else {
                        None
                    },
                }
            } else {
                None
            },
        }
    } else {
        None
    }
}

/// Reading a whole tree: the presence flag, then — when a root is present —
/// the root's payload and its child blocks. A zero flag byte is an empty
/// tree; any other value announces a root.
pub open spec fn spec_from_bytes<T: ByteCodec>(bytes: Seq<u8>) -> Result<TreeV<T>, DecodeErr> {
    if bytes.len() == 0 {
        Err(DecodeErr::Malformed)
    } else if bytes[0] == 0 {
        Ok(TreeV { nodes: Seq::empty(), free: None, root: None, count: 0 })
    } else {
        match T::dec(bytes, 1) {
            None => Err(DecodeErr::Malformed),
            Some((x, p1)) => if 1 <= p1 <= bytes.len() {
                let v0 = TreeV {
                    nodes: Seq::empty().push(Node { parent: None, prev_sib: None, next_sib: None, first_child: None, last_child: None, data: Some(x) }),
                    free: None,
                    root: Some(0),
                    count: 1,
                };
                match spec_dec_children(v0, 0, bytes, p1) {
                    None => Err(DecodeErr::Malformed),
                    Some((v2, _)) => Ok(v2),
                }
            } else {
                Err(DecodeErr::Malformed)
            },
        }
    }
}

impl<T: ByteCodec> Tree<T> {
    /// Serialises the tree: a presence flag byte, then each node of the
    /// preorder walk as payload bytes followed by its child count.
    pub fn into_bytes(&self) -> (r: Vec<u8>)
        requires
            self.wf(),
        ensures
            r@ == spec_tree_enc(self@),
    {
        let mut out: Vec<u8> = Vec::new();
        let root_opt = self.get_root();
        match root_opt {
            None => {
                out.push(0u8);
            },
            Some(rid) => {
                match self.sub_tree_info(rid) {
                    Err(_) => {
                        out.push(0u8);
                    },
                    Ok(infos) => {
                        out.push(1u8);
                        let mut i: usize = 0;
                        while i < infos.len()
                            invariant
                                self.wf(),
                                infos@ == self@.sub_tree_infos(rid),
                                i <= infos@.len(),
                                out@ == seq![1u8] + enc_info_list(self@, infos@.take(i as int)),
                            decreases infos@.len() - i,
                        {
                            let info = infos[i];
                            match self.data_at(info.id) {
                                Ok(d) => d.encode(&mut out),
                                Err(_) => {},
                            }
                            let mut cb = u32_to_be(#[verifier::truncate] (info.child_count as u32));
                            out.append(&mut cb);
                            i = i + 1;
                            proof {
                                lemma_enc_info_list_snoc(self@, infos@.take(i - 1), info);
                                assert(infos@.take(i as int) =~= infos@.take(i - 1).push(info));
                                assert(out@ =~= seq![1u8] + enc_info_list(self@, infos@.take(i as int)));
                            }
                        }
                        proof {
                            assert(infos@.take(infos@.len() as int) =~= infos@);
                        }
                    },
                }
            },
        }
        out
    }

    #[verifier::loop_isolation(false)]
    fn from_bytes_helper(&mut self, parent: usize, bytes: &Vec<u8>, pos: usize) -> (r: Result<usize, DecodeErr>)
        requires
            old(self).wf(),
            (parent as int) < old(self)@.n(),
            pos <= bytes@.len(),
        ensures
            final(self).wf(),
            final(self)@.n() >= old(self)@.n(),
            match r {
                Ok(p2) => {
                    &&& spec_dec_children(old(self)@, parent, bytes@, pos as int) == Some((final(self)@, p2 as int))
                    &&& pos + 4 <= p2 <= bytes@.len()
                },
                Err(e) => e == DecodeErr::Malformed && spec_dec_children::<T>(old(self)@, parent, bytes@, pos as int) is None,
            },
        decreases bytes@.len() - pos,
    {
        if bytes.len() - pos < 4 {
            return Err(DecodeErr::Malformed);
        }
        let cnt = u32_from_be(bytes, pos);
        let mut p = pos + 4;
        let mut i: u32 = 0;
        while i < cnt
            invariant
                self.wf(),
                self@.n() >= old(self)@.n(),
                (parent as int) < self@.n(),
                pos + 4 <= p <= bytes@.len(),
                i <= cnt,
                spec_dec_n(old(self)@, parent, bytes@, pos + 4, cnt as nat) == spec_dec_n(self@, parent, bytes@, p as int, (cnt - i) as nat),
            decreases cnt - i,
        {
            match T::decode(bytes, p) {
                None => {
                    return Err(DecodeErr::Malformed);
                },
                Some((x, p1)) => {
                    let ghost v_before = self@;
                    let n_now = self.arena_len();
                    proof {
                        T::lemma_dec_ok(bytes@, p as int);
                        crate::tree::lemma_alloc_wf(v_before, x);
                        crate::tree::lemma_append_wf(spec_alloc(v_before, x).0, parent, spec_alloc(v_before, x).1);
                    }
                    let cid = self.get_node(x);
                    self.append_child(parent, cid);
                    match self.from_bytes_helper(cid, bytes, p1) {
                        Err(e) => {
                            return Err(e);
                        },
                        Ok(p2) => {
                            proof {
                                assert(spec_dec_n(v_before, parent, bytes@, p as int, (cnt - i) as nat)
                                    == spec_dec_n(self@, parent, bytes@, p2 as int, (cnt - i - 1) as nat));
                            }
                            p = p2;
                            i = i + 1;
                        },
                    }
                },
            }
        }
        Ok(p)
    }

    fn decode_core(bytes: &Vec<u8>) -> (r: Result<Tree<T>, DecodeErr>)
        ensures
            match r {
                Ok(t) => t.wf() && spec_from_bytes::<T>(bytes@) == Ok::<TreeV<T>, DecodeErr>(t@),
                Err(e) => spec_from_bytes::<T>(bytes@) == Err::<TreeV<T>, DecodeErr>(e),
            },
    {
        if bytes.len() == 0 {
            return Err(DecodeErr::Malformed);
        }
        let flag = bytes[0];
        if flag == 0 {
            return Ok(Tree::new());
        }
        match T::decode(bytes, 1) {
            None => Err(DecodeErr::Malformed),
            Some((x, p1)) => {
                proof {
                    T::lemma_dec_ok(bytes@, 1int);
                }
                let mut tree = Tree::new_with_root(x);
                match tree.from_bytes_helper(0, bytes, p1) {
                    Err(e) => Err(e),
                    Ok(_) => Ok(tree),
                }
            },
        }
    }

    /// Rebuilds a tree from its byte encoding. Trailing bytes beyond the
    /// encoded tree are ignored, as a sequential reader would leave them
    /// unread.
    pub fn from_bytes(bytes: &Vec<u8>) -> (r: Result<Tree<T>, DecodeErr>)
        ensures
            match r {
                Ok(t) => t.wf() && spec_from_bytes::<T>(bytes@) == Ok::<TreeV<T>, DecodeErr>(t@),
                Err(e) => spec_from_bytes::<T>(bytes@) == Err::<TreeV<T>, DecodeErr>(e),
            },
    {
        Self::decode_core(bytes)
    }
}

/// The bytes that arrive from a fallible source before its first failure.
pub open spec fn ok_prefix<E>(s: Seq<Result<u8, E>>) -> Seq<u8>
    decreases s.len(),
{
    if s.len() == 0 {
        Seq::empty()
    } else {
        match s[0] {
            Ok(b) => seq![b] + ok_prefix(s.drop_first()),
            Err(_) => Seq::empty(),
        }
    }
}

/// The first failure a fallible source delivers, if any.
pub open spec fn first_err<E>(s: Seq<Result<u8, E>>) -> Option<E>
    decreases s.len(),
{
    if s.len() == 0 {
        None
    } else {
        match s[0] {
            Ok(_) => first_err(s.drop_first()),
            Err(e) => Some(e),
        }
    }
}

impl<T: ByteCodec> Tree<T> {
    /// Rebuilds a tree from a byte source whose elements may carry a failure
    /// of the source itself. When decoding succeeds on the bytes that arrived
    /// before the first failure, that failure is never reached and the tree
    /// is returned. When it does not, the source's failure is reported if
    /// there was one, and a malformed-data error otherwise: a decoder that
    /// stops short of the failure point for a content reason cannot be told
    /// apart here, because a payload decoder reports failure without saying
    /// whether more bytes would have helped. For the fixed-width payloads
    /// this crate encodes, the only decode failure is running out of bytes,
    /// where the two readings agree.
    #[verifier::loop_isolation(false)]
    pub fn from_io_bytes<E>(bytes: Vec<Result<u8, E>>) -> (r: Result<Tree<T>, IoDecodeErr<E>>)
        ensures
            match r {
                Ok(t) => t.wf() && spec_from_bytes::<T>(ok_prefix(bytes@)) == Ok::<TreeV<T>, DecodeErr>(t@),
                Err(e) => match e {
                    IoDecodeErr::Malformed => spec_from_bytes::<T>(ok_prefix(bytes@)) == Err::<TreeV<T>, DecodeErr>(DecodeErr::Malformed)
                        && first_err(bytes@) is None,
                    IoDecodeErr::Io(io) => spec_from_bytes::<T>(ok_prefix(bytes@)) is Err
                        && first_err(bytes@) == Some(io),
                },
            },
    {
        let ghost s = bytes@;
        let mut src = bytes;
        let mut data: Vec<u8> = Vec::new();
        let mut pending: Option<E> = None;
        while !src.is_empty() && pending.is_none()
            invariant
                pending is None ==> {
                    &&& src@ =~= s.skip(data@.len() as int)
                    &&& data@.len() <= s.len()
                    &&& ok_prefix(s) == data@ + ok_prefix(src@)
                    &&& first_err(s) == first_err(src@)
                },
                pending matches Some(e) ==> first_err(s) == Some(e) && ok_prefix(s) == data@,
            decreases src@.len(),
        {
            let ghost j = data@.len() as int;
            let x = src.remove(0);
            proof {
                assert(s.skip(j)[0] == x);
                assert(src@ =~= s.skip(j).drop_first());
                assert(src@ =~= s.skip(j + 1));
            }
            match x {
                Ok(b) => {
                    data.push(b);
                    proof {
                        assert(ok_prefix(s.skip(j)) == seq![b] + ok_prefix(s.skip(j + 1)));
                        assert(data@ + ok_prefix(src@) =~= ok_prefix(s));
                    }
                },
                Err(e) => {
                    pending = Some(e);
                    proof {
                        assert(first_err(s.skip(j)) == Some(pending.unwrap()));
                        assert(ok_prefix(s.skip(j)) =~= Seq::<u8>::empty());
                        assert(data@ =~= ok_prefix(s));
                    }
                },
            }
        }
        proof {
            if pending is None {
                assert(src@.len() == 0);
                assert(ok_prefix(src@) =~= Seq::<u8>::empty());
                assert(data@ =~= ok_prefix(s));
                assert(first_err(s) == first_err(src@));
            }
        }
        match Self::decode_core(&data) {
            Ok(t) => Ok(t),
            Err(_) => match pending {
                Some(e) => Err(IoDecodeErr::Io(e)),
                None => Err(IoDecodeErr::Malformed),
            },
        }
    }
}

/// A pull-based byte producer for a tree's encoding: `next` hands the
/// encoding out one byte at a time.
pub struct TreeIter {
    bytes: Vec<u8>,
    pos: usize,
}

impl View for TreeIter {
    type V = Seq<u8>;

    closed spec fn view(&self) -> Seq<u8> {
        if self.pos <= self.bytes@.len() {
            self.bytes@.skip(self.pos as int)
        } else {
            Seq::empty()
        }
    }
}

impl TreeIter {
    /// Starts a byte producer over the encoding of `tree`.
    pub fn new<T: ByteCodec>(tree: &Tree<T>) -> (it: TreeIter)
        requires
            tree.wf(),
        ensures
            it@ == spec_tree_enc(tree@),
    {
        let bytes = tree.into_bytes();
        let it = TreeIter { bytes, pos: 0 };
        proof {
            assert(it@ =~= spec_tree_enc(tree@));
        }
        it
    }

    /// Hands out the next byte of the encoding, or `None` once it is spent.
    pub fn next(&mut self) -> (r: Option<u8>)
        ensures
            match r {
                Some(b) => old(self)@.len() > 0 && b == old(self)@[0] && final(self)@ == old(self)@.drop_first(),
                None => old(self)@.len() == 0 && final(self)@ == old(self)@,
            },
    {
        if self.pos < self.bytes.len() {
            let b = self.bytes[self.pos];
            self.pos = self.pos + 1;
            proof {
                assert(final(self)@ =~= old(self)@.drop_first());
            }
            Some(b)
        } else {
            None
        }
    }
}

/// A tree without a root encodes to the single zero byte, and decoding that
/// byte yields the empty tree.
pub proof fn lemma_empty_round_trip<T: ByteCodec>(v: TreeV<T>)
    requires
        v.root is None,
    ensures
        spec_tree_enc(v) == seq![0u8],
        spec_from_bytes::<T>(spec_tree_enc(v)) == Ok::<TreeV<T>, DecodeErr>(TreeV { nodes: Seq::empty(), free: None, root: None, count: 0 }),
{
    assert(spec_tree_enc(v) == seq![0u8]);
    assert(seq![0u8].len() == 1);
    assert(seq![0u8][0] == 0u8);
}


/// A tree holding exactly one node round-trips: it encodes to the presence
/// flag, the payload bytes and a zero child count, and decoding that
/// encoding rebuilds the same single-node state.
pub proof fn lemma_single_node_round_trip<T: ByteCodec>(data: T)
    ensures
        ({
            let v = TreeV::<T> {
                nodes: Seq::empty().push(Node { parent: None, prev_sib: None, next_sib: None, first_child: None, last_child: None, data: Some(data) }),
                free: None,
                root: Some(0),
                count: 1,
            };
            &&& spec_tree_enc(v) == seq![1u8] + data.enc() + be_bytes(0)
            &&& spec_from_bytes::<T>(spec_tree_enc(v)) == Ok::<TreeV<T>, DecodeErr>(v)
        }),
{
    let v = TreeV::<T> {
        nodes: Seq::empty().push(Node { parent: None, prev_sib: None, next_sib: None, first_child: None, last_child: None, data: Some(data) }),
        free: None,
        root: Some(0),
        count: 1,
    };
    reveal_with_fuel(enc_info_list, 3);
    reveal_with_fuel(kids, 2);
    reveal_with_fuel(info_chain, 2);
    let info = NodeInfo { id: 0, child_count: 0, depth: 0 };
    assert(v.children(0) =~= Seq::<usize>::empty());
    assert(v.sub_tree_infos(0) =~= seq![info]);
    assert(seq![info].drop_first() =~= Seq::<NodeInfo>::empty());
    assert(payload_enc(v, 0) == data.enc());
    let bytes = spec_tree_enc(v);
    assert(bytes =~= seq![1u8] + data.enc() + be_bytes(0));

    let elen = data.enc().len() as int;
    assert(bytes.len() == 5 + elen);
    assert(bytes[0] == 1u8);
    assert(bytes.subrange(1, 1 + elen) =~= data.enc());
    T::lemma_enc_dec(data, bytes, 1);
    let p1 = 1 + elen;
    assert(T::dec(bytes, 1) == Some((data, p1)));
    assert(bytes[p1] == be_bytes(0)[0]);
    assert(bytes[p1 + 1] == be_bytes(0)[1]);
    assert(bytes[p1 + 2] == be_bytes(0)[2]);
    assert(bytes[p1 + 3] == be_bytes(0)[3]);
    lemma_be_val_of_be_bytes(0);
    assert(be_val(bytes[p1], bytes[p1 + 1], bytes[p1 + 2], bytes[p1 + 3]) == 0);
    assert(spec_dec_children(v, 0, bytes, p1) == Some((v, p1 + 4)));
    assert(spec_from_bytes::<T>(bytes) == Ok::<TreeV<T>, DecodeErr>(v));
}

} // verus!

