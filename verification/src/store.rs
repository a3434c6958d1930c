use vstd::prelude::*;

use crate::codec::{
    be_bytes, be_val, prefix_spec, u64_from_be_at, u64_to_be, validate_prefix, write_header,
    HEADER_LEN, IDENTIFIER, OLDEST_VERSION,
};
use crate::error::{IoErrorKind, StorageError};
use crate::outside::{
    has_key, idx_clone, idx_deser, idx_entries_vec, idx_get, idx_insert, idx_new, idx_ser,
    idx_shift_remove, index_dec, index_enc, index_entries, key_at, vacant_dec, vacant_deser,
    vacant_enc, vacant_ser, Index,
};
use crate::vacant::{
    allocate, blocks_wf, covers, free_block, spec_alloc, spec_free, VacantBlock,
};

verus! {

/// What a parsed store image holds: the format version, the index entries,
/// the vacant-block list as `(offset, size)` pairs, and the end of the data
/// region.
pub type StoreImage = (u8, Seq<(Seq<u8>, u64, u64)>, Seq<(u64, u64)>, u64);

/// The vacant blocks described by a list of `(offset, size)` pairs.
pub open spec fn blocks_of(ps: Seq<(u64, u64)>) -> Seq<VacantBlock> {
    ps.map(|i: int, p: (u64, u64)| (VacantBlock { pos: p.0, size: p.1 }))
}

/// The `(offset, size)` pairs describing a list of vacant blocks.
pub open spec fn pairs_of(vs: Seq<VacantBlock>) -> Seq<(u64, u64)> {
    vs.map(|i: int, v: VacantBlock| (v.pos, v.size))
}

/// Well-formedness of index entries against a data region ending at `hi`:
/// every value range lies between the header and `hi`, keys are unique, and
/// non-empty value ranges are pairwise disjoint.
pub open spec fn entries_wf(es: Seq<(Seq<u8>, u64, u64)>, hi: u64) -> bool {
    &&& forall|i: int|
        0 <= i < es.len() ==> HEADER_LEN <= (#[trigger] es[i]).1 && es[i].1 + es[i].2 <= hi
    &&& forall|i: int, j: int|
        0 <= i < es.len() && 0 <= j < es.len() && i != j ==> (#[trigger] es[i]).0 != (
        #[trigger] es[j]).0
    &&& forall|i: int, j: int|
        0 <= i < es.len() && 0 <= j < es.len() && i != j && (#[trigger] es[i]).2 > 0 && (
        #[trigger] es[j]).2 > 0 ==> (es[i].1 + es[i].2 <= es[j].1 || es[j].1 + es[j].2 <= es[i].1)
}

/// Every vacant block lies between the header and `hi`.
pub open spec fn blocks_in_range(vs: Seq<VacantBlock>, hi: u64) -> bool {
    forall|i: int|
        0 <= i < vs.len() ==> HEADER_LEN <= (#[trigger] vs[i]).pos && vs[i].pos + vs[i].size <= hi
}

/// No non-empty value range of `es` overlaps any vacant block of `vs`.
pub open spec fn entries_blocks_disjoint(es: Seq<(Seq<u8>, u64, u64)>, vs: Seq<VacantBlock>) -> bool {
    forall|i: int, j: int|
        0 <= i < es.len() && 0 <= j < vs.len() && (#[trigger] es[i]).2 > 0 ==> (es[i].1 + es[i].2
            <= (#[trigger] vs[j]).pos || vs[j].pos + vs[j].size <= es[i].1)
}

/// The footer section at offset `off` of `b`: an 8-byte big-endian length
/// followed by that many payload bytes, or nothing where `b` is too short.
pub open spec fn footer_at(b: Seq<u8>, off: u64) -> Option<Seq<u8>> {
    if off + 8 > b.len() {
        None
    } else {
        let l = be_val(b.subrange(off as int, off as int + 8));
        if off + 8 + l > b.len() {
            None
        } else {
            Some(b.subrange(off as int + 8, off as int + 8 + l))
        }
    }
}

/// What loading the index footer returns: the entries it decodes to, or the
/// exact error.  The index footer offset is read from bytes 9..17.
pub open spec fn index_footer_spec(b: Seq<u8>) -> Result<Seq<(Seq<u8>, u64, u64)>, StorageError> {
    if b.len() < 17 {
        Err(StorageError::IO(IoErrorKind::UnexpectedEof))
    } else {
        let io = be_val(b.subrange(9, 17));
        match footer_at(b, io) {
            None => Err(StorageError::IO(IoErrorKind::UnexpectedEof)),
            Some(p) => match index_dec(p) {
                None => Err(StorageError::FailedLoadIndex),
                Some(es) => Ok(es),
            },
        }
    }
}

/// What loading the vacant-list footer returns: the `(offset, size)` pairs it
/// decodes to, or the exact error.  The vacant-list footer offset is read
/// from bytes 17..25.
pub open spec fn vacant_footer_spec(b: Seq<u8>) -> Result<Seq<(u64, u64)>, StorageError> {
    if b.len() < 25 {
        Err(StorageError::IO(IoErrorKind::UnexpectedEof))
    } else {
        let vo = be_val(b.subrange(17, 25));
        match footer_at(b, vo) {
            None => Err(StorageError::IO(IoErrorKind::UnexpectedEof)),
            Some(p) => match vacant_dec(p) {
                None => Err(StorageError::FailedLoadFreeList),
                Some(ps) => Ok(ps),
            },
        }
    }
}

/// What opening a raw byte image returns: the parsed store, or the exact
/// error.  The prefix is validated first, then the two footers are loaded,
/// then the loaded index and vacant list are checked against the layout
/// invariants; the data region ends at the lower footer offset.
pub open spec fn open_spec(b: Seq<u8>) -> Result<StoreImage, StorageError> {
    match prefix_spec(b) {
        Err(e) => Err(e),
        Ok(v) => match index_footer_spec(b) {
            Err(e) => Err(e),
            Ok(es) => match vacant_footer_spec(b) {
                Err(e) => Err(e),
                Ok(ps) => {
                    let io = be_val(b.subrange(9, 17));
                    let vo = be_val(b.subrange(17, 25));
                    let de = if io <= vo {
                        io
                    } else {
                        vo
                    };
                    if de < HEADER_LEN || !entries_wf(es, de) {
                        Err(StorageError::FailedLoadIndex)
                    } else if !(blocks_wf(blocks_of(ps)) && blocks_in_range(blocks_of(ps), de)
                        && entries_blocks_disjoint(es, blocks_of(ps))) {
                        Err(StorageError::FailedLoadFreeList)
                    } else {
                        Ok((v, es, ps, de))
                    }
                },
            },
        },
    }
}

/// The logical key/value mapping that entries describe over a byte image:
/// each key maps to the bytes of its value range.
pub open spec fn map_of(b: Seq<u8>, es: Seq<(Seq<u8>, u64, u64)>) -> Map<Seq<u8>, Seq<u8>> {
    Map::new(
        |k: Seq<u8>| has_key(es, k),
        |k: Seq<u8>|
            ({
                let e = es[key_at(es, k)];
                b.subrange(e.1 as int, e.1 + e.2)
            }),
    )
}

/// Whether the two footers of the given serialized lengths fit behind a data
/// region ending at `de`: the whole image must stay within both the 64-bit
/// offset space and the address space.
pub open spec fn footers_fit(de: u64, l1: nat, l2: nat) -> bool {
    &&& de + 16 + l1 + l2 <= u64::MAX
    &&& de + 16 + l1 + l2 <= usize::MAX
}

/// The exact image the store writes: the 25-byte header whose recorded
/// offsets point at the end of the data region `de` and right behind the
/// index footer, then the two length-prefixed footer payloads `p1` and `p2`
/// back to back, ending the image.
pub open spec fn written_image(b: Seq<u8>, version: u8, de: u64, p1: Seq<u8>, p2: Seq<u8>) -> bool {
    &&& b.len() == de + 16 + p1.len() + p2.len()
    &&& be_val(b.subrange(0, 8)) == IDENTIFIER
    &&& b[8] == version
    &&& b.subrange(9, 17) == be_bytes(de)
    &&& b.subrange(17, 25) == be_bytes((de + 8 + p1.len()) as u64)
    &&& b.subrange(de as int, de as int + 8) == be_bytes(p1.len() as u64)
    &&& b.subrange(de as int + 8, de as int + 8 + p1.len() as int) == p1
    &&& b.subrange(de as int + 8 + p1.len() as int, de as int + 16 + p1.len() as int) == be_bytes(
        p2.len() as u64,
    )
    &&& b.subrange(de as int + 16 + p1.len() as int, b.len() as int) == p2
}

/// Whether a freshly initialized, empty image fits: behind the 25-byte
/// header stand only the encodings of an empty index and an empty
/// vacant-block list.
pub open spec fn empty_image_fits() -> bool {
    footers_fit(
        HEADER_LEN,
        index_enc(Seq::<(Seq<u8>, u64, u64)>::empty()).len(),
        vacant_enc(Seq::<(u64, u64)>::empty()).len(),
    )
}

/// An embedded, single-file key-value store: a byte-addressable backend
/// buffer holding a fixed header, a data region of value records, and two
/// footers, together with the in-memory index and vacant-block allocator
/// reconstructed from the footers.
#[derive(Debug, PartialEq)]
pub struct Storage {
    inner: Vec<u8>,
    index: Index,
    vacant: Vec<VacantBlock>,
    version: u8,
    data_end: u64,
}

impl Storage {
    /// The raw bytes of the backend buffer.
    pub closed spec fn bytes(self) -> Seq<u8> {
        self.inner@
    }

    /// The index entries, in insertion order.
    pub closed spec fn entries(self) -> Seq<(Seq<u8>, u64, u64)> {
        index_entries(self.index)
    }

    /// The vacant blocks, sorted by offset.
    pub closed spec fn vacants(self) -> Seq<VacantBlock> {
        self.vacant@
    }

    /// The format version of the store.
    pub closed spec fn spec_version(self) -> u8 {
        self.version
    }

    /// The end of the data region; the footers start here.
    pub closed spec fn spec_data_end(self) -> u64 {
        self.data_end
    }

    /// The store's well-formedness invariant: a valid header prefix, a data
    /// region between header and footers, entries and vacant blocks within
    /// it, and no overlap anywhere.
    pub open spec fn wf(self) -> bool {
        &&& self.spec_version() <= OLDEST_VERSION
        &&& HEADER_LEN <= self.spec_data_end() <= self.bytes().len()
        &&& be_val(self.bytes().subrange(0, 8)) == IDENTIFIER
        &&& self.bytes()[8] == self.spec_version()
        &&& entries_wf(self.entries(), self.spec_data_end())
        &&& blocks_wf(self.vacants())
        &&& blocks_in_range(self.vacants(), self.spec_data_end())
        &&& entries_blocks_disjoint(self.entries(), self.vacants())
    }

    /// The backend bytes describe exactly the in-memory state: reopening them
    /// parses back the same version, entries, vacant list and data end.
    pub open spec fn persisted(self) -> bool {
        open_spec(self.bytes()) == Ok::<StoreImage, StorageError>(
            (self.spec_version(), self.entries(), pairs_of(self.vacants()), self.spec_data_end()),
        )
    }

    /// The key/value mapping the store holds.
    pub open spec fn as_map(self) -> Map<Seq<u8>, Seq<u8>> {
        map_of(self.bytes(), self.entries())
    }

    /// The backend buffer.
    pub fn buffer(&self) -> (r: &Vec<u8>)
        ensures
            r@ == self.bytes(),
    {
        &self.inner
    }

    /// The end of the data region.
    pub fn data_end(&self) -> (r: u64)
        ensures
            r == self.spec_data_end(),
    {
        self.data_end
    }

    /// The current vacant blocks.
    pub fn vacant_list(&self) -> (r: &Vec<VacantBlock>)
        ensures
            r@ == self.vacants(),
    {
        &self.vacant
    }

    /// The format version.
    pub fn version(&self) -> (r: u8)
        ensures
            r == self.spec_version(),
    {
        self.version
    }

    /// Reads the 8-byte identifier and the version byte of a raw store
    /// prefix, exactly as `validate_prefix` does.
    pub fn check_prefix(data: &Vec<u8>) -> (r: Result<u8, StorageError>)
        ensures
            r == prefix_spec(data@),
    {
        validate_prefix(data.as_slice())
    }

    /// Loads the index from a raw store image: reads the index footer offset
    /// at byte 9, then the length-prefixed payload there, and decodes it.
    pub fn load_index(data: &Vec<u8>) -> (r: Result<Index, StorageError>)
        ensures
            match index_footer_spec(data@) {
                Ok(es) => r matches Ok(m) && index_entries(m) == es,
                Err(e) => r == Err::<Index, StorageError>(e),
            },
    {
        if data.len() < 17 {
            return Err(StorageError::IO(IoErrorKind::UnexpectedEof));
        }
        let io = u64_from_be_at(data.as_slice(), 9);
        match Self::read_footer(data, io) {
            None => Err(StorageError::IO(IoErrorKind::UnexpectedEof)),
            Some(payload) => match idx_deser(payload.as_slice()) {
                Some(m) => Ok(m),
                None => Err(StorageError::FailedLoadIndex),
            },
        }
    }

    /// Loads the vacant-block list from a raw store image: reads the footer
    /// offset at byte 17, then the length-prefixed payload there, and decodes
    /// it.
    pub fn load_vacant_list(data: &Vec<u8>) -> (r: Result<Vec<VacantBlock>, StorageError>)
        ensures
            match vacant_footer_spec(data@) {
                Ok(ps) => r matches Ok(v) && v@ == blocks_of(ps),
                Err(e) => r == Err::<Vec<VacantBlock>, StorageError>(e),
            },
    {
        if data.len() < 25 {
            return Err(StorageError::IO(IoErrorKind::UnexpectedEof));
        }
        let vo = u64_from_be_at(data.as_slice(), 17);
        match Self::read_footer(data, vo) {
            None => Err(StorageError::IO(IoErrorKind::UnexpectedEof)),
            Some(payload) => match vacant_deser(payload.as_slice()) {
                Some(pairs) => {
                    let mut v: Vec<VacantBlock> = Vec::new();
                    let mut i: usize = 0;
                    while i < pairs.len()
                        invariant
                            i <= pairs@.len(),
                            vacant_dec(payload@) == Some(pairs@),
                            v@ == blocks_of(pairs@.subrange(0, i as int)),
                        decreases pairs@.len() - i,
                    {
                        let p = pairs[i];
                        v.push(VacantBlock { pos: p.0, size: p.1 });
                        proof {
                            assert(v@ =~= blocks_of(pairs@.subrange(0, i as int + 1)));
                        }
                        i += 1;
                    }
                    proof {
                        assert(pairs@.subrange(0, pairs@.len() as int) =~= pairs@);
                    }
                    Ok(v)
                },
                None => Err(StorageError::FailedLoadFreeList),
            },
        }
    }

    /// Reads the length-prefixed footer section at offset `off`, or `None`
    /// where the buffer is too short.
    fn read_footer(data: &Vec<u8>, off: u64) -> (r: Option<Vec<u8>>)
        ensures
            match r {
                Some(p) => footer_at(data@, off) == Some(p@),
                None => footer_at(data@, off) == None::<Seq<u8>>,
            },
    {
        let n = data.len();
        if off > (n as u64) || (n as u64) - off < 8 {
            return None;
        }
        let l = u64_from_be_at(data.as_slice(), off as usize);
        if l > (n as u64) - off - 8 {
            return None;
        }
        Some(read_range(data, off + 8, l))
    }
}

impl Storage {
    /// Rewrites both footers right after the data region ending at `new_de`,
    /// updates the header's recorded offsets, and installs the new in-memory
    /// index and vacant list.  `ser_i` and `ser_v` must be the serialized
    /// forms of `nidx` and `nvac`.
    fn commit(&mut self, nidx: Index, nvac: Vec<VacantBlock>, new_de: u64, ser_i: Vec<u8>, ser_v: Vec<u8>)
        requires
            HEADER_LEN <= new_de <= old(self).inner@.len(),
            be_val(old(self).inner@.subrange(0, 8)) == IDENTIFIER,
            old(self).inner@[8] == old(self).version,
            old(self).version <= OLDEST_VERSION,
            index_dec(ser_i@) == Some(index_entries(nidx)),
            vacant_dec(ser_v@) == Some(pairs_of(nvac@)),
            entries_wf(index_entries(nidx), new_de),
            blocks_wf(nvac@),
            blocks_in_range(nvac@, new_de),
            entries_blocks_disjoint(index_entries(nidx), nvac@),
            new_de + 16 + ser_i@.len() + ser_v@.len() <= u64::MAX,
            new_de + 16 + ser_i@.len() + ser_v@.len() <= usize::MAX,
        ensures
            final(self).wf(),
            final(self).persisted(),
            final(self).entries() == index_entries(nidx),
            final(self).vacants() == nvac@,
            final(self).spec_data_end() == new_de,
            final(self).spec_version() == old(self).spec_version(),
            final(self).bytes().len() == new_de + 16 + ser_i@.len() + ser_v@.len(),
            final(self).bytes().subrange(25, new_de as int) == old(self).inner@.subrange(
                25,
                new_de as int,
            ),
            final(self).as_map() == map_of(old(self).inner@, index_entries(nidx)),
            written_image(
                final(self).bytes(),
                final(self).spec_version(),
                new_de,
                ser_i@,
                ser_v@,
            ),
    {
        let ghost old_b = self.inner@;
        let ghost es = index_entries(nidx);
        let ghost ps = pairs_of(nvac@);
        let l1 = ser_i.len() as u64;
        let l2 = ser_v.len() as u64;
        let vo = new_de + 8 + l1;
        self.inner.truncate(new_de as usize);
        let ghost t = self.inner@;
        proof {
            assert(t == old_b.subrange(0, new_de as int));
        }
        let mut b1 = u64_to_be(l1);
        self.inner.append(&mut b1);
        let mut si = ser_i;
        self.inner.append(&mut si);
        let mut b2 = u64_to_be(l2);
        self.inner.append(&mut b2);
        let mut sv = ser_v;
        self.inner.append(&mut sv);
        let ghost u = self.inner@;
        proof {
            assert(u == t + be_bytes(l1) + ser_i@ + be_bytes(l2) + ser_v@);
            assert(u.len() == new_de + 16 + ser_i@.len() + ser_v@.len());
        }
        let hio = u64_to_be(new_de);
        patch8(&mut self.inner, 9, &hio);
        let hvo = u64_to_be(vo);
        patch8(&mut self.inner, 17, &hvo);
        self.index = nidx;
        self.vacant = nvac;
        self.data_end = new_de;
        proof {
            let bb = self.inner@;
            assert(bb.len() == u.len());
            assert forall|k: int| 0 <= k < 9 implies bb[k] == old_b[k] by {
                assert(bb[k] == u[k]);
                assert(u[k] == t[k]);
            }
            assert(bb.subrange(9, 17) =~= be_bytes(new_de));
            assert(bb.subrange(17, 25) =~= be_bytes(vo));
            assert forall|k: int| 25 <= k < bb.len() implies bb[k] == u[k] by {}
            assert(bb.subrange(25, new_de as int) =~= old_b.subrange(25, new_de as int)) by {
                assert forall|k: int| 25 <= k < new_de implies bb[k] == old_b[k] by {
                    assert(bb[k] == u[k]);
                    assert(u[k] == t[k]);
                }
            }
            assert(bb.subrange(new_de as int, new_de as int + 8) =~= be_bytes(l1)) by {
                assert forall|k: int| 0 <= k < 8 implies bb[new_de + k] == be_bytes(l1)[k] by {
                    assert(bb[new_de + k] == u[new_de + k]);
                    assert(u[new_de + k] == be_bytes(l1)[k]);
                }
            }
            assert(bb.subrange(new_de as int + 8, new_de as int + 8 + ser_i@.len() as int)
                =~= ser_i@) by {
                assert forall|k: int| 0 <= k < ser_i@.len() implies bb[new_de + 8 + k]
                    == ser_i@[k] by {
                    assert(bb[new_de + 8 + k] == u[new_de + 8 + k]);
                    assert(u[new_de + 8 + k] == ser_i@[k]);
                }
            }
            assert(bb.subrange(vo as int, vo as int + 8) =~= be_bytes(l2)) by {
                assert forall|k: int| 0 <= k < 8 implies bb[vo + k] == be_bytes(l2)[k] by {
                    assert(bb[vo + k] == u[vo + k]);
                    assert(u[vo + k] == be_bytes(l2)[k]);
                }
            }
            assert(bb.subrange(vo as int + 8, vo as int + 8 + ser_v@.len() as int) =~= ser_v@) by {
                assert forall|k: int| 0 <= k < ser_v@.len() implies bb[vo + 8 + k]
                    == ser_v@[k] by {
                    assert(bb[vo + 8 + k] == u[vo + 8 + k]);
                    assert(u[vo + 8 + k] == ser_v@[k]);
                }
            }
            lemma_parse_layout(old_b, bb, self.version, new_de, es, ps, ser_i@, ser_v@);
            lemma_pairs_roundtrip(self.vacant@);
            assert(self.wf());
            lemma_map_of_same(bb, old_b, es, new_de);
        }
    }

    /// Writes the header and the two footers for an empty data region: the
    /// store must hold no entries and no vacant blocks yet.  On success the
    /// backend describes exactly this empty state.
    fn initialize(&mut self) -> (r: Result<(), StorageError>)
        requires
            index_entries(old(self).index) == Seq::<(Seq<u8>, u64, u64)>::empty(),
            old(self).vacant@.len() == 0,
            old(self).version <= OLDEST_VERSION,
        ensures
            r is Err <==> !empty_image_fits(),
            match r {
                Ok(()) => ({
                    &&& final(self).wf()
                    &&& final(self).persisted()
                    &&& final(self).as_map() == Map::<Seq<u8>, Seq<u8>>::empty()
                    &&& final(self).entries().len() == 0
                    &&& final(self).vacants().len() == 0
                    &&& final(self).spec_version() == old(self).spec_version()
                    &&& final(self).spec_data_end() == HEADER_LEN
                    &&& written_image(
                        final(self).bytes(),
                        final(self).spec_version(),
                        HEADER_LEN,
                        index_enc(Seq::<(Seq<u8>, u64, u64)>::empty()),
                        vacant_enc(Seq::<(u64, u64)>::empty()),
                    )
                }),
                Err(e) => e == StorageError::SerializationError && *final(self) == *old(self),
            },
    {
        let ser_i = idx_ser(&self.index).unwrap();
        let empty_pairs: Vec<(u64, u64)> = Vec::new();
        let ser_v = vacant_ser(&empty_pairs).unwrap();
        proof {
            assert(ser_i@ == index_enc(Seq::<(Seq<u8>, u64, u64)>::empty()));
            assert(empty_pairs@ =~= Seq::<(u64, u64)>::empty());
            assert(ser_v@ == vacant_enc(Seq::<(u64, u64)>::empty()));
        }
        let l1 = ser_i.len();
        let l2 = ser_v.len();
        if l1 as u64 > u64::MAX - 41 || l2 as u64 > u64::MAX - 41 - l1 as u64 {
            return Err(StorageError::SerializationError);
        }
        if 41 + l1 as u64 + l2 as u64 > usize::MAX as u64 {
            return Err(StorageError::SerializationError);
        }
        let nidx = idx_clone(&self.index);
        let nvac: Vec<VacantBlock> = Vec::new();
        self.inner = write_header(self.version, 0, 0);
        proof {
            crate::codec::lemma_be_roundtrip(IDENTIFIER);
            assert(self.inner@.subrange(0, 8) =~= be_bytes(IDENTIFIER));
            assert(self.inner@[8] == self.version);
            assert(pairs_of(nvac@) =~= empty_pairs@);
        }
        self.commit(nidx, nvac, HEADER_LEN, ser_i, ser_v);
        proof {
            assert(self.as_map() =~= Map::<Seq<u8>, Seq<u8>>::empty());
        }
        Ok(())
    }

    /// Creates a new store over a fresh in-memory buffer: an empty index, an
    /// empty vacant list, and the current format version, all persisted.
    pub fn new_vectored() -> (r: Result<Storage, StorageError>)
        ensures
            r is Err <==> !empty_image_fits(),
            match r {
                Ok(s) => ({
                    &&& s.wf()
                    &&& s.persisted()
                    &&& s.as_map() == Map::<Seq<u8>, Seq<u8>>::empty()
                    &&& s.entries().len() == 0
                    &&& s.vacants().len() == 0
                    &&& s.spec_version() == OLDEST_VERSION
                    &&& s.spec_data_end() == HEADER_LEN
                    &&& written_image(
                        s.bytes(),
                        OLDEST_VERSION,
                        HEADER_LEN,
                        index_enc(Seq::<(Seq<u8>, u64, u64)>::empty()),
                        vacant_enc(Seq::<(u64, u64)>::empty()),
                    )
                }),
                Err(e) => e == StorageError::SerializationError,
            },
    {
        let mut st = Storage {
            inner: Vec::new(),
            index: idx_new(),
            vacant: Vec::new(),
            version: OLDEST_VERSION,
            data_end: HEADER_LEN,
        };
        match st.initialize() {
            Ok(()) => {
                proof {
                    lemma_round_trip(st, st);
                }
                Ok(st)
            },
            Err(e) => Err(e),
        }
    }
}

impl Storage {
    /// Opens a store from a raw byte image: validates the prefix, loads the
    /// index and the vacant list from their footers, and checks the layout
    /// invariants.  Succeeds on exactly the images that parse back to a
    /// well-formed store, and returns the exact error otherwise.
    pub fn from_vec(buf: Vec<u8>) -> (r: Result<Storage, StorageError>)
        ensures
            match open_spec(buf@) {
                Ok(parts) => r matches Ok(s) && s.wf() && s.persisted() && s.bytes() == buf@
                    && s.spec_version() == parts.0 && s.entries() == parts.1 && s.vacants()
                    == blocks_of(parts.2) && s.spec_data_end() == parts.3 && s.as_map() == map_of(
                    buf@,
                    parts.1,
                ),
                Err(e) => r == Err::<Storage, StorageError>(e),
            },
    {
        let version = match Self::check_prefix(&buf) {
            Ok(v) => v,
            Err(e) => {
                return Err(e);
            },
        };
        let index = match Self::load_index(&buf) {
            Ok(m) => m,
            Err(e) => {
                return Err(e);
            },
        };
        let vacant = match Self::load_vacant_list(&buf) {
            Ok(v) => v,
            Err(e) => {
                return Err(e);
            },
        };
        let io = u64_from_be_at(buf.as_slice(), 9);
        let vo = u64_from_be_at(buf.as_slice(), 17);
        let de = if io <= vo {
            io
        } else {
            vo
        };
        let evec = idx_entries_vec(&index);
        proof {
            lemma_entries_view(&evec);
        }
        if de < HEADER_LEN || !check_entries(&evec, de) {
            return Err(StorageError::FailedLoadIndex);
        }
        if !check_blocks(&vacant, de) {
            return Err(StorageError::FailedLoadFreeList);
        }
        if !check_cross(&evec, &vacant, de) {
            return Err(StorageError::FailedLoadFreeList);
        }
        let st = Storage { inner: buf, index, vacant, version, data_end: de };
        proof {
            let ps = match vacant_footer_spec(st.inner@) {
                Ok(p) => p,
                Err(_) => arbitrary(),
            };
            lemma_blocks_roundtrip(ps);
            assert(st.wf());
            assert(st.persisted());
            lemma_round_trip(st, st);
        }
        Ok(st)
    }
}

/// The entries that a vector of owned `(key, offset, length)` triples stands
/// for.
proof fn lemma_entries_view(evec: &Vec<(Vec<u8>, u64, u64)>)
    ensures
        evec.deep_view().len() == evec@.len(),
        forall|i: int|
            0 <= i < evec@.len() ==> evec.deep_view()[i] == ((#[trigger] evec@[i]).0@, evec@[i].1,
            evec@[i].2),
{
    assert forall|i: int| 0 <= i < evec@.len() implies evec.deep_view()[i] == ((
    #[trigger] evec@[i]).0@, evec@[i].1, evec@[i].2) by {
        let e = evec@[i];
        assert(evec.deep_view()[i] == e.deep_view());
        assert(e.0.deep_view() =~= e.0@);
    }
}

/// A list of `(offset, size)` pairs is recovered exactly from the blocks it
/// describes.
proof fn lemma_blocks_roundtrip(ps: Seq<(u64, u64)>)
    ensures
        pairs_of(blocks_of(ps)) == ps,
{
    assert forall|i: int| 0 <= i < ps.len() implies pairs_of(blocks_of(ps))[i] == ps[i] by {
        assert(blocks_of(ps)[i] == (VacantBlock { pos: ps[i].0, size: ps[i].1 }));
        assert(pairs_of(blocks_of(ps))[i] == (ps[i].0, ps[i].1));
    }
    assert(pairs_of(blocks_of(ps)) =~= ps);
}

/// Whether two byte vectors hold the same bytes.
fn bytes_eq(a: &Vec<u8>, b: &Vec<u8>) -> (r: bool)
    ensures
        r == (a@ == b@),
{
    if a.len() != b.len() {
        return false;
    }
    let n = a.len();
    let mut i: usize = 0;
    while i < n
        invariant
            n == a@.len(),
            n == b@.len(),
            i <= n,
            forall|k: int| 0 <= k < i ==> a@[k] == b@[k],
        decreases n - i,
    {
        if a[i] != b[i] {
            return false;
        }
        i += 1;
    }
    proof {
        assert(a@ =~= b@);
    }
    true
}

/// Whether a pair of distinct entries is acceptable: different keys, and
/// disjoint value ranges where both are non-empty.
spec fn pair_ok(es: Seq<(Seq<u8>, u64, u64)>, a: int, b: int) -> bool {
    es[a].0 != es[b].0 && ((es[a].2 > 0 && es[b].2 > 0) ==> (es[a].1 + es[a].2 <= es[b].1
        || es[b].1 + es[b].2 <= es[a].1))
}

/// Checks the loaded index entries against the layout invariants for a data
/// region ending at `de`.
fn check_entries(evec: &Vec<(Vec<u8>, u64, u64)>, de: u64) -> (r: bool)
    ensures
        r == entries_wf(evec.deep_view(), de),
{
    proof {
        lemma_entries_view(evec);
    }
    let ghost es = evec.deep_view();
    let n = evec.len();
    let mut i: usize = 0;
    while i < n
        invariant
            n == evec@.len(),
            es == evec.deep_view(),
            es.len() == n,
            forall|k: int|
                0 <= k < es.len() ==> es[k] == ((#[trigger] evec@[k]).0@, evec@[k].1, evec@[k].2),
            i <= n,
            forall|k: int|
                0 <= k < i ==> HEADER_LEN <= (#[trigger] es[k]).1 && es[k].1 + es[k].2 <= de,
        decreases n - i,
    {
        let off = evec[i].1;
        let len = evec[i].2;
        if off < 25 || len > de || off > de - len {
            return false;
        }
        i += 1;
    }
    let mut a: usize = 0;
    while a < n
        invariant
            n == evec@.len(),
            es == evec.deep_view(),
            es.len() == n,
            forall|k: int|
                0 <= k < es.len() ==> es[k] == ((#[trigger] evec@[k]).0@, evec@[k].1, evec@[k].2),
            a <= n,
            forall|k: int|
                0 <= k < es.len() ==> HEADER_LEN <= (#[trigger] es[k]).1 && es[k].1 + es[k].2
                    <= de,
            forall|x: int, y: int| 0 <= x < a && x < y < es.len() ==> pair_ok(es, x, y),
        decreases n - a,
    {
        let mut b: usize = a + 1;
        while b < n
            invariant
                n == evec@.len(),
                es == evec.deep_view(),
                es.len() == n,
                forall|k: int|
                    0 <= k < es.len() ==> es[k] == ((#[trigger] evec@[k]).0@, evec@[k].1,
                    evec@[k].2),
                a < b <= n,
                forall|k: int|
                    0 <= k < es.len() ==> HEADER_LEN <= (#[trigger] es[k]).1 && es[k].1 + es[k].2
                        <= de,
                forall|x: int, y: int| 0 <= x < a && x < y < es.len() ==> pair_ok(es, x, y),
                forall|y: int| a < y < b ==> pair_ok(es, a as int, y),
            decreases n - b,
        {
            if bytes_eq(&evec[a].0, &evec[b].0) {
                proof {
                    assert(es[a as int].0 == es[b as int].0);
                }
                return false;
            }
            let oa = evec[a].1;
            let la = evec[a].2;
            let ob = evec[b].1;
            let lb = evec[b].2;
            if la > 0 && lb > 0 && !(oa + la <= ob || ob + lb <= oa) {
                return false;
            }
            b += 1;
        }
        a += 1;
    }
    proof {
        assert forall|x: int, y: int|
            0 <= x < es.len() && 0 <= y < es.len() && x != y implies (#[trigger] es[x]).0 != (
        #[trigger] es[y]).0 by {
            if x < y {
                assert(pair_ok(es, x, y));
            } else {
                assert(pair_ok(es, y, x));
            }
        }
        assert forall|x: int, y: int|
            0 <= x < es.len() && 0 <= y < es.len() && x != y && (#[trigger] es[x]).2 > 0 && (
        #[trigger] es[y]).2 > 0 implies (es[x].1 + es[x].2 <= es[y].1 || es[y].1 + es[y].2
            <= es[x].1) by {
            if x < y {
                assert(pair_ok(es, x, y));
            } else {
                assert(pair_ok(es, y, x));
            }
        }
    }
    true
}

/// Checks the loaded vacant blocks against the layout invariants for a data
/// region ending at `de`.
#[verifier::rlimit(80)]
fn check_blocks(blocks: &Vec<VacantBlock>, de: u64) -> (r: bool)
    ensures
        r == (blocks_wf(blocks@) && blocks_in_range(blocks@, de)),
{
    let n = blocks.len();
    let mut i: usize = 0;
    while i < n
        invariant
            n == blocks@.len(),
            i <= n,
            forall|k: int|
                0 <= k < i ==> (#[trigger] blocks@[k]).size > 0 && HEADER_LEN <= blocks@[k].pos
                    && blocks@[k].pos + blocks@[k].size <= de,
            forall|k: int|
                0 <= k && k + 1 < i ==> (#[trigger] blocks@[k]).pos + blocks@[k].size < blocks@[k
                    + 1].pos,
        decreases n - i,
    {
        let bl = blocks[i];
        if bl.size == 0 || bl.pos < 25 || bl.size > de || bl.pos > de - bl.size {
            return false;
        }
        if i > 0 {
            let pv = blocks[i - 1];
            if pv.pos + pv.size >= bl.pos {
                return false;
            }
        }
        i += 1;
    }
    true
}

/// Checks that no non-empty value range of the loaded entries overlaps any of
/// the loaded vacant blocks.
fn check_cross(evec: &Vec<(Vec<u8>, u64, u64)>, blocks: &Vec<VacantBlock>, de: u64) -> (r: bool)
    requires
        entries_wf(evec.deep_view(), de),
        blocks_wf(blocks@),
        blocks_in_range(blocks@, de),
    ensures
        r == entries_blocks_disjoint(evec.deep_view(), blocks@),
{
    proof {
        lemma_entries_view(evec);
    }
    let ghost es = evec.deep_view();
    let n = evec.len();
    let m = blocks.len();
    let mut i: usize = 0;
    while i < n
        invariant
            n == evec@.len(),
            m == blocks@.len(),
            es == evec.deep_view(),
            es.len() == n,
            entries_wf(es, de),
            blocks_wf(blocks@),
            blocks_in_range(blocks@, de),
            forall|k: int|
                0 <= k < es.len() ==> es[k] == ((#[trigger] evec@[k]).0@, evec@[k].1, evec@[k].2),
            i <= n,
            forall|x: int, y: int|
                0 <= x < i && 0 <= y < blocks@.len() && (#[trigger] es[x]).2 > 0 ==> (es[x].1
                    + es[x].2 <= (#[trigger] blocks@[y]).pos || blocks@[y].pos + blocks@[y].size
                    <= es[x].1),
        decreases n - i,
    {
        let off = evec[i].1;
        let len = evec[i].2;
        if len > 0 {
            let mut j: usize = 0;
            while j < m
                invariant
                    m == blocks@.len(),
                    i < n,
                    n == evec@.len(),
                    es == evec.deep_view(),
                    es.len() == n,
                    entries_wf(es, de),
                    blocks_wf(blocks@),
                    blocks_in_range(blocks@, de),
                    forall|k: int|
                        0 <= k < es.len() ==> es[k] == ((#[trigger] evec@[k]).0@, evec@[k].1,
                        evec@[k].2),
                    off == es[i as int].1,
                    len == es[i as int].2,
                    len > 0,
                    off + len <= de,
                    j <= m,
                    forall|y: int|
                        0 <= y < j ==> (off + len <= (#[trigger] blocks@[y]).pos || blocks@[y].pos
                            + blocks@[y].size <= off),
                decreases m - j,
            {
                let bl = blocks[j];
                if !(off + len <= bl.pos || bl.pos + bl.size <= off) {
                    proof {
                        let gi = i as int;
                        let gj = j as int;
                        assert(es[gi].2 > 0);
                        assert(!(es[gi].1 + es[gi].2 <= blocks@[gj].pos || blocks@[gj].pos
                            + blocks@[gj].size <= es[gi].1));
                        assert(entries_blocks_disjoint(es, blocks@) ==> (es[gi].1 + es[gi].2
                            <= blocks@[gj].pos || blocks@[gj].pos + blocks@[gj].size <= es[gi].1));
                    }
                    return false;
                }
                j += 1;
            }
        }
        i += 1;
    }
    true
}

/// In every well-formed store state, no two live value ranges overlap, no
/// value range overlaps a vacant block, and no two vacant blocks overlap or
/// touch.  Every operation of the store preserves `wf`, so this holds after
/// any sequence of operations.
pub proof fn lemma_no_overlap(s: Storage)
    requires
        s.wf(),
    ensures
        forall|i: int, j: int|
            0 <= i < s.entries().len() && 0 <= j < s.entries().len() && i != j && (
            #[trigger] s.entries()[i]).2 > 0 && (#[trigger] s.entries()[j]).2 > 0 ==> (
            s.entries()[i].1 + s.entries()[i].2 <= s.entries()[j].1 || s.entries()[j].1
                + s.entries()[j].2 <= s.entries()[i].1),
        forall|i: int, j: int|
            0 <= i < s.entries().len() && 0 <= j < s.vacants().len() && (
            #[trigger] s.entries()[i]).2 > 0 ==> (s.entries()[i].1 + s.entries()[i].2 <= (
            #[trigger] s.vacants()[j]).pos || s.vacants()[j].pos + s.vacants()[j].size
                <= s.entries()[i].1),
        forall|i: int, j: int|
            0 <= i < s.vacants().len() && 0 <= j < s.vacants().len() && i != j ==> ((
            #[trigger] s.vacants()[i]).pos + s.vacants()[i].size <= (#[trigger] s.vacants()[j]).pos
                || s.vacants()[j].pos + s.vacants()[j].size <= s.vacants()[i].pos),
{
    let vs = s.vacants();
    assert forall|i: int, j: int|
        0 <= i < vs.len() && 0 <= j < vs.len() && i != j implies ((#[trigger] vs[i]).pos
        + vs[i].size <= (#[trigger] vs[j]).pos || vs[j].pos + vs[j].size <= vs[i].pos) by {
        if i < j {
            crate::vacant::lemma_blocks_ordered(vs, i, j);
        } else {
            crate::vacant::lemma_blocks_ordered(vs, j, i);
        }
    }
}

/// Two well-formed stores persisted over the same bytes hold the same
/// key/value mapping: reopening a store's buffer always gives the mapping
/// back.
pub proof fn lemma_round_trip(s1: Storage, s2: Storage)
    requires
        s1.wf(),
        s1.persisted(),
        s2.wf(),
        s2.persisted(),
        s2.bytes() == s1.bytes(),
    ensures
        s2.as_map() == s1.as_map(),
        s2.entries() == s1.entries(),
        s2.vacants() == s1.vacants(),
        s2.spec_version() == s1.spec_version(),
        s2.spec_data_end() == s1.spec_data_end(),
{
    assert(open_spec(s1.bytes()) == open_spec(s2.bytes()));
    lemma_pairs_injective(s1.vacants(), s2.vacants());
}

/// Vacant lists with the same `(offset, size)` pairs are the same list.
proof fn lemma_pairs_injective(v1: Seq<VacantBlock>, v2: Seq<VacantBlock>)
    requires
        pairs_of(v1) == pairs_of(v2),
    ensures
        v1 == v2,
{
    assert(pairs_of(v1).len() == v1.len() && pairs_of(v2).len() == v2.len());
    assert forall|i: int| 0 <= i < v1.len() implies v1[i] == v2[i] by {
        assert(pairs_of(v1)[i] == (v1[i].pos, v1[i].size));
        assert(pairs_of(v2)[i] == (v2[i].pos, v2[i].size));
        assert(v1[i].pos == v2[i].pos && v1[i].size == v2[i].size);
    }
    assert(v1 =~= v2);
}

/// A list of vacant blocks is recovered exactly from its `(offset, size)`
/// pairs.
proof fn lemma_pairs_roundtrip(vs: Seq<VacantBlock>)
    ensures
        blocks_of(pairs_of(vs)) == vs,
{
    assert forall|i: int| 0 <= i < vs.len() implies blocks_of(pairs_of(vs))[i] == vs[i] by {
        assert(pairs_of(vs)[i] == (vs[i].pos, vs[i].size));
        assert(blocks_of(pairs_of(vs))[i] == (VacantBlock { pos: vs[i].pos, size: vs[i].size }));
    }
    assert(blocks_of(pairs_of(vs)) =~= vs);
}

/// The mapping a store holds depends only on the data-region bytes its
/// entries reference: images equal between the header and `de` give equal
/// mappings.
proof fn lemma_map_of_same(b1: Seq<u8>, b2: Seq<u8>, es: Seq<(Seq<u8>, u64, u64)>, de: u64)
    requires
        entries_wf(es, de),
        de <= b1.len(),
        de <= b2.len(),
        b1.subrange(25, de as int) == b2.subrange(25, de as int),
    ensures
        map_of(b1, es) == map_of(b2, es),
{
    assert forall|k: Seq<u8>| has_key(es, k) implies map_of(b1, es)[k] == map_of(b2, es)[k] by {
        let e = es[key_at(es, k)];
        let i = key_at(es, k);
        assert(0 <= i < es.len() && es[i].0 == k);
        assert(25 <= e.1 && e.1 + e.2 <= de);
        assert(b1.subrange(e.1 as int, e.1 + e.2) =~= b2.subrange(e.1 as int, e.1 + e.2)) by {
            assert forall|x: int| e.1 <= x < e.1 + e.2 implies b1[x] == b2[x] by {
                assert(b1[x] == b1.subrange(25, de as int)[x - 25]);
                assert(b2[x] == b2.subrange(25, de as int)[x - 25]);
            }
        }
    }
    assert(map_of(b1, es) =~= map_of(b2, es));
}

/// A byte image laid out as header, data region, and the two footers parses
/// back to exactly the state it was written from.
proof fn lemma_parse_layout(
    old_b: Seq<u8>,
    bb: Seq<u8>,
    version: u8,
    new_de: u64,
    es: Seq<(Seq<u8>, u64, u64)>,
    ps: Seq<(u64, u64)>,
    ser_i: Seq<u8>,
    ser_v: Seq<u8>,
)
    requires
        HEADER_LEN <= new_de,
        be_val(old_b.subrange(0, 8)) == IDENTIFIER,
        old_b.len() >= 9,
        old_b[8] == version,
        version <= OLDEST_VERSION,
        index_dec(ser_i) == Some(es),
        vacant_dec(ser_v) == Some(ps),
        entries_wf(es, new_de),
        blocks_wf(blocks_of(ps)),
        blocks_in_range(blocks_of(ps), new_de),
        entries_blocks_disjoint(es, blocks_of(ps)),
        new_de + 16 + ser_i.len() + ser_v.len() <= u64::MAX,
        bb.len() == new_de + 16 + ser_i.len() + ser_v.len(),
        forall|k: int| 0 <= k < 9 ==> bb[k] == old_b[k],
        bb.subrange(9, 17) == be_bytes(new_de),
        bb.subrange(17, 25) == be_bytes((new_de + 8 + ser_i.len()) as u64),
        bb.subrange(new_de as int, new_de as int + 8) == be_bytes(ser_i.len() as u64),
        bb.subrange(new_de as int + 8, new_de as int + 8 + ser_i.len() as int) == ser_i,
        bb.subrange(
            new_de as int + 8 + ser_i.len() as int,
            new_de as int + 16 + ser_i.len() as int,
        ) == be_bytes(ser_v.len() as u64),
        bb.subrange(new_de as int + 16 + ser_i.len() as int, bb.len() as int) == ser_v,
    ensures
        open_spec(bb) == Ok::<StoreImage, StorageError>((version, es, ps, new_de)),
{
    let l1 = ser_i.len() as u64;
    let l2 = ser_v.len() as u64;
    let vo = (new_de + 8 + ser_i.len()) as u64;
    crate::codec::lemma_be_roundtrip(new_de);
    crate::codec::lemma_be_roundtrip(vo);
    crate::codec::lemma_be_roundtrip(l1);
    crate::codec::lemma_be_roundtrip(l2);
    assert(bb.subrange(0, 8) =~= old_b.subrange(0, 8));
    assert(bb[8] == version);
    assert(prefix_spec(bb) == Ok::<u8, StorageError>(version));
    assert(be_val(bb.subrange(9, 17)) == new_de);
    assert(be_val(bb.subrange(17, 25)) == vo);
    assert(be_val(bb.subrange(new_de as int, new_de as int + 8)) == l1);
    assert(footer_at(bb, new_de) == Some(ser_i));
    assert(index_footer_spec(bb) == Ok::<Seq<(Seq<u8>, u64, u64)>, StorageError>(es));
    assert(be_val(bb.subrange(vo as int, vo as int + 8)) == l2);
    assert(bb.subrange(vo as int + 8, vo as int + 8 + l2 as int) == ser_v);
    assert(footer_at(bb, vo) == Some(ser_v));
    assert(vacant_footer_spec(bb) == Ok::<Seq<(u64, u64)>, StorageError>(ps));
    assert(new_de <= vo);
}

/// Replaces 8 bytes of `v` at offset `at`.
fn patch8(v: &mut Vec<u8>, at: usize, b: &Vec<u8>)
    requires
        b@.len() == 8,
        at + 8 <= old(v)@.len(),
    ensures
        final(v)@.len() == old(v)@.len(),
        forall|k: int| 0 <= k < old(v)@.len() && !(at <= k < at + 8) ==> final(v)@[k] == old(v)@[k],
        final(v)@.subrange(at as int, at as int + 8) == b@,
{
    let n = v.len();
    proof {
        assert(n == v@.len());
    }
    let mut i: usize = 0;
    while i < 8
        invariant
            b@.len() == 8,
            at + 8 <= v@.len(),
            v@.len() <= usize::MAX,
            v@.len() == old(v)@.len(),
            i <= 8,
            forall|k: int| 0 <= k < v@.len() && !(at <= k < at + i) ==> v@[k] == old(v)@[k],
            forall|k: int| 0 <= k < i ==> v@[at + k] == b@[k],
        decreases 8 - i,
    {
        v[at + i] = b[i];
        i += 1;
    }
    proof {
        assert(v@.subrange(at as int, at as int + 8) =~= b@);
    }
}

/// Where a value of `size` bytes goes: the chosen offset, the vacant list
/// that remains, and the new end of the data region, which grows only where
/// no vacant block is large enough.
pub open spec fn spec_place(vs: Seq<VacantBlock>, de: u64, size: u64) -> (u64, Seq<VacantBlock>, u64) {
    let r = spec_alloc(vs, size);
    match r.0 {
        Some(off) => (off, r.1, de),
        None => (de, r.1, (de + size) as u64),
    }
}

/// The vacant list after giving an existing key's old range back; unchanged
/// where the key is absent.
pub open spec fn freed_list(pre: Storage, key: Seq<u8>) -> Seq<VacantBlock> {
    let es = pre.entries();
    if has_key(es, key) {
        spec_free(pre.vacants(), es[key_at(es, key)].1, es[key_at(es, key)].2)
    } else {
        pre.vacants()
    }
}

/// Whether storing a value of `vlen` bytes under `key` fits: appending may
/// not run past the 64-bit offset space, and the rewritten footers must fit
/// behind the new end of the data region.
pub open spec fn put_fits(pre: Storage, key: Seq<u8>, vlen: u64) -> bool {
    let es = pre.entries();
    let freed = freed_list(pre, key);
    let placed = spec_place(freed, pre.spec_data_end(), vlen);
    let nes = if has_key(es, key) {
        es.update(key_at(es, key), (key, placed.0, vlen))
    } else {
        es.push((key, placed.0, vlen))
    };
    &&& !(spec_alloc(freed, vlen).0 is None && pre.spec_data_end() + vlen > u64::MAX)
    &&& footers_fit(placed.2, index_enc(nes).len(), vacant_enc(pairs_of(placed.1)).len())
}

/// Whether removing `key` fits: the footers rewritten for the shrunk index
/// and the grown vacant list must fit behind the unchanged data end.
pub open spec fn remove_fits(pre: Storage, key: Seq<u8>) -> bool {
    let es = pre.entries();
    let ka = key_at(es, key);
    footers_fit(
        pre.spec_data_end(),
        index_enc(es.remove(ka)).len(),
        vacant_enc(pairs_of(spec_free(pre.vacants(), es[ka].1, es[ka].2))).len(),
    )
}

/// The total length of the first `n` values of `es`.
pub open spec fn sum_lens(es: Seq<(Seq<u8>, u64, u64)>, n: int) -> int
    decreases n,
{
    if n <= 0 {
        0
    } else {
        sum_lens(es, n - 1) + es[n - 1].2
    }
}

/// A longer prefix of values is at least as long.
pub proof fn lemma_sum_lens_mono(es: Seq<(Seq<u8>, u64, u64)>, k: int, n: int)
    requires
        0 <= k <= n,
    ensures
        sum_lens(es, k) <= sum_lens(es, n),
    decreases n - k,
{
    if n > k {
        lemma_sum_lens_mono(es, k, n - 1);
    }
}

/// The entries after compaction: the same keys and lengths, with the values
/// laid end to end in index order from the end of the header.
pub open spec fn compact_entries(es: Seq<(Seq<u8>, u64, u64)>) -> Seq<(Seq<u8>, u64, u64)> {
    Seq::new(es.len(), |i: int| (es[i].0, (25 + sum_lens(es, i)) as u64, es[i].2))
}

/// Whether the compacted image fits: the packed values must stay within the
/// 64-bit offset space, and the footers for the rewritten index and the
/// empty vacant list must fit behind them.
pub open spec fn compact_fits(pre: Storage) -> bool {
    let es = pre.entries();
    let total = 25 + sum_lens(es, es.len() as int);
    &&& total <= u64::MAX
    &&& footers_fit(
        total as u64,
        index_enc(compact_entries(es)).len(),
        vacant_enc(Seq::<(u64, u64)>::empty()).len(),
    )
}

/// The state that storing `val` under `key` leads to: the old range of an
/// existing key is freed, the value is placed best-fit-or-append, the entry
/// is updated in place or appended, and everything is persisted in the exact
/// written layout.
pub open spec fn put_post(pre: Storage, post: Storage, key: Seq<u8>, val: Seq<u8>) -> bool {
    let es = pre.entries();
    let freed = freed_list(pre, key);
    let placed = spec_place(freed, pre.spec_data_end(), val.len() as u64);
    &&& post.wf()
    &&& post.persisted()
    &&& post.as_map() == pre.as_map().insert(key, val)
    &&& post.spec_version() == pre.spec_version()
    &&& post.vacants() == placed.1
    &&& post.spec_data_end() == placed.2
    &&& post.entries() == (if has_key(es, key) {
        es.update(key_at(es, key), (key, placed.0, val.len() as u64))
    } else {
        es.push((key, placed.0, val.len() as u64))
    })
    &&& written_image(
        post.bytes(),
        post.spec_version(),
        post.spec_data_end(),
        index_enc(post.entries()),
        vacant_enc(pairs_of(post.vacants())),
    )
}

impl Storage {
    /// Looks `key` up and reads its value bytes from the data region.
    /// Returns `Ok(None)` where the key is absent; no mutation, no footer
    /// rewrite.
    pub fn get(&self, key: &Vec<u8>) -> (r: Result<Option<Vec<u8>>, StorageError>)
        requires
            self.wf(),
        ensures
            r is Ok,
            match r {
                Ok(Some(v)) => self.as_map().contains_key(key@) && v@ == self.as_map()[key@],
                Ok(None) => !self.as_map().contains_key(key@),
                Err(_) => false,
            },
    {
        match idx_get(&self.index, key) {
            None => {
                proof {
                    assert(!has_key(self.entries(), key@));
                }
                Ok(None)
            },
            Some(loc) => {
                let ghost es = self.entries();
                proof {
                    let i = choose|i: int| 0 <= i < es.len() && es[i] == (key@, loc.0, loc.1);
                    assert(es[i].0 == key@);
                    assert(has_key(es, key@));
                    let ka = key_at(es, key@);
                    assert(0 <= ka < es.len() && es[ka].0 == key@);
                    assert(ka == i);
                    assert(HEADER_LEN <= loc.0 && loc.0 + loc.1 <= self.spec_data_end());
                }
                let v = read_range(&self.inner, loc.0, loc.1);
                Ok(Some(v))
            },
        }
    }

    /// Stores `value` under `key`.  An existing key is updated; a new key is
    /// inserted.  On an error the store is left unchanged.
    pub fn set(&mut self, key: Vec<u8>, value: &Vec<u8>) -> (r: Result<(), StorageError>)
        requires
            old(self).wf(),
        ensures
            final(self).wf(),
            r is Ok <==> put_fits(*old(self), key@, value@.len() as u64),
            match r {
                Ok(()) => put_post(*old(self), *final(self), key@, value@),
                Err(e) => e == StorageError::SerializationError && *final(self) == *old(self),
            },
    {
        self.put(key, value, false)
    }

    /// Replaces the value of an existing `key`; fails with `KeyNotFound`
    /// where the key is absent.  The old range is freed back to the
    /// allocator before the new value is placed.  On an error the store is
    /// left unchanged.
    pub fn update(&mut self, key: Vec<u8>, value: &Vec<u8>) -> (r: Result<(), StorageError>)
        requires
            old(self).wf(),
        ensures
            final(self).wf(),
            r is Ok <==> (has_key(old(self).entries(), key@) && put_fits(
                *old(self),
                key@,
                value@.len() as u64,
            )),
            match r {
                Ok(()) => put_post(*old(self), *final(self), key@, value@),
                Err(e) => ({
                    &&& *final(self) == *old(self)
                    &&& (e == StorageError::KeyNotFound <==> !has_key(old(self).entries(), key@))
                    &&& (e == StorageError::KeyNotFound || e == StorageError::SerializationError)
                }),
            },
    {
        self.put(key, value, true)
    }

    /// Removes `key`: frees its value range back into the allocator, removes
    /// the index entry, and rewrites the footers.  Fails with `KeyNotFound`
    /// where the key is absent, never mutating anything.
    #[verifier::rlimit(100)]
    #[verifier::spinoff_prover]
    pub fn remove(&mut self, key: &Vec<u8>) -> (r: Result<(), StorageError>)
        requires
            old(self).wf(),
        ensures
            final(self).wf(),
            r is Ok <==> (has_key(old(self).entries(), key@) && remove_fits(*old(self), key@)),
            match r {
                Ok(()) => ({
                    let es = old(self).entries();
                    &&& has_key(es, key@)
                    &&& final(self).persisted()
                    &&& written_image(
                        final(self).bytes(),
                        final(self).spec_version(),
                        final(self).spec_data_end(),
                        index_enc(final(self).entries()),
                        vacant_enc(pairs_of(final(self).vacants())),
                    )
                    &&& final(self).as_map() == old(self).as_map().remove(key@)
                    &&& final(self).entries() == es.remove(key_at(es, key@))
                    &&& final(self).vacants() == spec_free(
                        old(self).vacants(),
                        es[key_at(es, key@)].1,
                        es[key_at(es, key@)].2,
                    )
                    &&& final(self).spec_data_end() == old(self).spec_data_end()
                    &&& final(self).spec_version() == old(self).spec_version()
                    &&& final(self).bytes().subrange(25, old(self).spec_data_end() as int) == old(
                        self,
                    ).bytes().subrange(25, old(self).spec_data_end() as int)
                }),
                Err(e) => ({
                    &&& *final(self) == *old(self)
                    &&& (e == StorageError::KeyNotFound <==> !has_key(old(self).entries(), key@))
                    &&& (e == StorageError::KeyNotFound || e == StorageError::SerializationError)
                }),
            },
    {
        let ghost es0 = self.entries();
        let ghost vs0 = self.vacants();
        let ghost de0 = self.data_end;
        let ghost b0 = self.inner@;
        let loc = match idx_get(&self.index, key) {
            None => {
                proof {
                    assert(!has_key(es0, key@));
                }
                return Err(StorageError::KeyNotFound);
            },
            Some(loc) => loc,
        };
        let ghost ka = key_at(es0, key@);
        proof {
            let i = choose|i: int| 0 <= i < es0.len() && es0[i] == (key@, loc.0, loc.1);
            assert(es0[i].0 == key@);
            assert(has_key(es0, key@));
            assert(0 <= ka < es0.len() && es0[ka].0 == key@);
            assert(ka == i);
            assert(HEADER_LEN <= loc.0 && loc.0 + loc.1 <= de0);
            if loc.1 > 0 {
                lemma_cross_range_free(es0, vs0, ka);
            }
        }
        let mut nvac = clone_blocks(&self.vacant);
        free_block(&mut nvac, loc.0, loc.1);
        let ghost nes = es0.remove(ka);
        let mut nidx = idx_clone(&self.index);
        let _prev = idx_shift_remove(&mut nidx, key);
        proof {
            let i = choose|i: int|
                0 <= i < es0.len() && es0[i].0 == key@ && index_entries(nidx) == es0.remove(i);
            assert(i == ka);
            assert(index_entries(nidx) == nes);
        }
        let ser_i = idx_ser(&nidx).unwrap();
        let pv = pairs_vec(&nvac);
        let ser_v = vacant_ser(&pv).unwrap();
        proof {
            assert(ser_i@ == index_enc(nes));
            assert(ser_v@ == vacant_enc(pairs_of(nvac@)));
        }
        let l1 = ser_i.len() as u64;
        let l2 = ser_v.len() as u64;
        if self.data_end > u64::MAX - 16 || l1 > u64::MAX - 16 - self.data_end || l2 > u64::MAX
            - 16 - self.data_end - l1 {
            proof {
                assert(!remove_fits(*self, key@));
            }
            return Err(StorageError::SerializationError);
        }
        if self.data_end + 16 + l1 + l2 > usize::MAX as u64 {
            proof {
                assert(!remove_fits(*self, key@));
            }
            return Err(StorageError::SerializationError);
        }
        proof {
            lemma_remove_state(es0, vs0, de0, ka, nvac@);
        }
        self.commit(nidx, nvac, self.data_end, ser_i, ser_v);
        proof {
            lemma_remove_map(b0, es0, ka);
        }
        Ok(())
    }

    /// The shared body of `set` and `update`.
    #[verifier::rlimit(100)]
    #[verifier::spinoff_prover]
    fn put(&mut self, key: Vec<u8>, value: &Vec<u8>, must_exist: bool) -> (r: Result<
        (),
        StorageError,
    >)
        requires
            old(self).wf(),
        ensures
            final(self).wf(),
            r is Ok <==> (!(must_exist && !has_key(old(self).entries(), key@)) && put_fits(
                *old(self),
                key@,
                value@.len() as u64,
            )),
            match r {
                Ok(()) => put_post(*old(self), *final(self), key@, value@),
                Err(e) => ({
                    &&& *final(self) == *old(self)
                    &&& (e == StorageError::KeyNotFound <==> (must_exist && !has_key(
                        old(self).entries(),
                        key@,
                    )))
                    &&& (e == StorageError::KeyNotFound || e == StorageError::SerializationError)
                }),
            },
    {
        let ghost gkey = key@;
        let ghost es0 = self.entries();
        let ghost vs0 = self.vacants();
        let ghost de0 = self.data_end;
        let ghost b0 = self.inner@;
        let existing = idx_get(&self.index, &key);
        if must_exist && existing.is_none() {
            proof {
                assert(!has_key(es0, gkey));
            }
            return Err(StorageError::KeyNotFound);
        }
        let ghost ka = key_at(es0, gkey);
        if let Some(loc) = existing {
            proof {
                let i = choose|i: int| 0 <= i < es0.len() && es0[i] == (gkey, loc.0, loc.1);
                assert(es0[i].0 == gkey);
                assert(has_key(es0, gkey));
                assert(0 <= ka < es0.len() && es0[ka].0 == gkey);
                assert(ka == i);
            }
        } else {
            proof {
                assert(!has_key(es0, gkey));
            }
        }
        let vlen = value.len() as u64;
        let placed = match self.place_value(existing, vlen, Ghost(gkey)) {
            Some(t) => t,
            None => {
                return Err(StorageError::SerializationError);
            },
        };
        let (nvac, off, new_de) = placed;
        let ghost nes = if has_key(es0, gkey) {
            es0.update(ka, (gkey, off, vlen))
        } else {
            es0.push((gkey, off, vlen))
        };
        let mut nidx = idx_clone(&self.index);
        let _prev = idx_insert(&mut nidx, key, (off, vlen));
        proof {
            if has_key(es0, gkey) {
                let i = choose|i: int|
                    0 <= i < es0.len() && es0[i].0 == gkey && index_entries(nidx) == es0.update(
                        i,
                        (gkey, off, vlen),
                    );
                assert(i == ka);
            }
            assert(index_entries(nidx) == nes);
        }
        let ser_i = idx_ser(&nidx).unwrap();
        let pv = pairs_vec(&nvac);
        let ser_v = vacant_ser(&pv).unwrap();
        proof {
            assert(ser_i@ == index_enc(nes));
            assert(ser_v@ == vacant_enc(pairs_of(nvac@)));
        }
        let l1 = ser_i.len() as u64;
        let l2 = ser_v.len() as u64;
        if new_de > u64::MAX - 16 || l1 > u64::MAX - 16 - new_de || l2 > u64::MAX - 16 - new_de
            - l1 {
            proof {
                assert(!footers_fit(new_de, index_enc(nes).len(), vacant_enc(pairs_of(nvac@)).len()));
            }
            return Err(StorageError::SerializationError);
        }
        if new_de + 16 + l1 + l2 > usize::MAX as u64 {
            proof {
                assert(!footers_fit(new_de, index_enc(nes).len(), vacant_enc(pairs_of(nvac@)).len()));
            }
            return Err(StorageError::SerializationError);
        }
        self.finish_put(
            nidx,
            nvac,
            off,
            new_de,
            value,
            ser_i,
            ser_v,
            Ghost(gkey),
            Ghost(
                if has_key(es0, gkey) {
                    spec_free(vs0, es0[ka].1, es0[ka].2)
                } else {
                    vs0
                },
            ),
        );
        Ok(())
    }

    /// Frees the old range of an existing key and chooses where the new
    /// value goes: a best-fit vacant block, or the end of the data region.
    /// Returns the remaining vacant list, the chosen offset, and the new end
    /// of the data region; `None` only where the grown region would not fit.
    #[verifier::rlimit(100)]
    #[verifier::spinoff_prover]
    fn place_value(&self, existing: Option<(u64, u64)>, vlen: u64, key: Ghost<Seq<u8>>) -> (r:
        Option<(Vec<VacantBlock>, u64, u64)>)
        requires
            self.wf(),
            match existing {
                Some(l) => has_key(self.entries(), key@) && self.entries()[key_at(
                    self.entries(),
                    key@,
                )] == (key@, l.0, l.1),
                None => !has_key(self.entries(), key@),
            },
        ensures
            ({
                let es0 = self.entries();
                let de0 = self.spec_data_end();
                let ka = key_at(es0, key@);
                let freed = if has_key(es0, key@) {
                    spec_free(self.vacants(), es0[ka].1, es0[ka].2)
                } else {
                    self.vacants()
                };
                let placed = spec_place(freed, de0, vlen);
                let nes = if has_key(es0, key@) {
                    es0.update(ka, (key@, placed.0, vlen))
                } else {
                    es0.push((key@, placed.0, vlen))
                };
                match r {
                    Some(t) => ({
                        &&& (placed.0, t.0@, placed.2) == (t.1, placed.1, t.2)
                        &&& blocks_wf(t.0@)
                        &&& blocks_in_range(t.0@, t.2)
                        &&& entries_wf(nes, t.2)
                        &&& entries_blocks_disjoint(nes, t.0@)
                        &&& t.1 + vlen <= t.2
                        &&& HEADER_LEN <= t.1
                        &&& de0 <= t.2
                        &&& (t.2 <= self.bytes().len() || t.2 == t.1 + vlen)
                        &&& t.1 <= self.bytes().len()
                        &&& (forall|x: int|
                            0 <= x < es0.len() && x != (if has_key(es0, key@) {
                                ka
                            } else {
                                es0.len() as int
                            }) && (#[trigger] es0[x]).2 > 0 && vlen > 0 ==> (t.1 + vlen
                                <= es0[x].1 || es0[x].1 + es0[x].2 <= t.1))
                    }),
                    None => true,
                }
            }),
            (r is None) <==> (spec_alloc(freed_list(*self, key@), vlen).0 is None
                && self.spec_data_end() + vlen > u64::MAX),
    {
        let ghost es0 = self.entries();
        let ghost vs0 = self.vacants();
        let ghost de0 = self.data_end;
        let ghost ka = key_at(es0, key@);
        let mut nvac = clone_blocks(&self.vacant);
        if let Some(loc) = existing {
            proof {
                if loc.1 > 0 {
                    lemma_cross_range_free(es0, vs0, ka);
                }
                assert(HEADER_LEN <= loc.0 && loc.0 + loc.1 <= de0);
            }
            free_block(&mut nvac, loc.0, loc.1);
        }
        let ghost freed = nvac@;
        let place = allocate(&mut nvac, vlen);
        let (off, new_de) = match place {
            Some(o) => (o, self.data_end),
            None => {
                if vlen > u64::MAX - self.data_end {
                    return None;
                }
                (self.data_end, self.data_end + vlen)
            },
        };
        proof {
            lemma_put_state(es0, vs0, de0, key@, Seq::new(vlen as nat, |i: int| 0u8), freed, nvac@, off, new_de, place);
        }
        Some((nvac, off, new_de))
    }

    /// Writes the value bytes at the chosen offset and rewrites both footers
    /// for the already-built index and vacant list.
    #[verifier::rlimit(100)]
    #[verifier::spinoff_prover]
    fn finish_put(
        &mut self,
        nidx: Index,
        nvac: Vec<VacantBlock>,
        off: u64,
        new_de: u64,
        value: &Vec<u8>,
        ser_i: Vec<u8>,
        ser_v: Vec<u8>,
        key: Ghost<Seq<u8>>,
        freed: Ghost<Seq<VacantBlock>>,
    )
        requires
            old(self).wf(),
            ({
                let es0 = old(self).entries();
                let de0 = old(self).spec_data_end();
                let vlen = value@.len() as u64;
                let ka = key_at(es0, key@);
                let nes = if has_key(es0, key@) {
                    es0.update(ka, (key@, off, vlen))
                } else {
                    es0.push((key@, off, vlen))
                };
                &&& freed@ == (if has_key(es0, key@) {
                    spec_free(old(self).vacants(), es0[ka].1, es0[ka].2)
                } else {
                    old(self).vacants()
                })
                &&& (off, nvac@, new_de) == spec_place(freed@, de0, vlen)
                &&& index_entries(nidx) == nes
                &&& entries_wf(nes, new_de)
                &&& blocks_wf(nvac@)
                &&& blocks_in_range(nvac@, new_de)
                &&& entries_blocks_disjoint(nes, nvac@)
                &&& off + vlen <= new_de
                &&& HEADER_LEN <= off
                &&& de0 <= new_de
                &&& (new_de <= old(self).bytes().len() || new_de == off + vlen)
                &&& off <= old(self).bytes().len()
                &&& (forall|x: int|
                    0 <= x < es0.len() && x != (if has_key(es0, key@) {
                        ka
                    } else {
                        es0.len() as int
                    }) && (#[trigger] es0[x]).2 > 0 && vlen > 0 ==> (off + vlen <= es0[x].1
                        || es0[x].1 + es0[x].2 <= off))
                &&& index_dec(ser_i@) == Some(nes)
                &&& vacant_dec(ser_v@) == Some(pairs_of(nvac@))
                &&& ser_i@ == index_enc(nes)
                &&& ser_v@ == vacant_enc(pairs_of(nvac@))
                &&& new_de + 16 + ser_i@.len() + ser_v@.len() <= u64::MAX
                &&& new_de + 16 + ser_i@.len() + ser_v@.len() <= usize::MAX
                &&& off + vlen <= usize::MAX
            }),
            value@.len() <= u64::MAX,
        ensures
            final(self).wf(),
            put_post(*old(self), *final(self), key@, value@),
    {
        let ghost es0 = self.entries();
        let ghost de0 = self.data_end;
        let ghost b0 = self.inner@;
        let ghost ka = key_at(es0, key@);
        let ghost vlen = value@.len() as u64;
        let ghost nes = index_entries(nidx);
        write_at(&mut self.inner, off, value);
        let ghost b1 = self.inner@;
        proof {
            assert forall|k: int| 0 <= k < 9 implies b1[k] == b0[k] by {}
            assert(b1.subrange(0, 8) =~= b0.subrange(0, 8));
            assert(new_de <= b1.len());
        }
        self.commit(nidx, nvac, new_de, ser_i, ser_v);
        proof {
            lemma_put_map(b0, b1, es0, nes, de0, key@, value@, off, vlen as u64, ka);
        }
    }
}

impl Storage {
    /// Rewrites the data region with no vacant blocks: every live value is
    /// copied contiguously behind the header in index order, every entry's
    /// offset is updated, the allocator is cleared, and the footers are
    /// rewritten.  Keys and values are unchanged.  On an error the store is
    /// left unchanged.
    #[verifier::rlimit(100)]
    #[verifier::spinoff_prover]
    pub fn compact(&mut self) -> (r: Result<(), StorageError>)
        requires
            old(self).wf(),
        ensures
            final(self).wf(),
            r is Ok <==> compact_fits(*old(self)),
            match r {
                Ok(()) => ({
                    &&& final(self).persisted()
                    &&& final(self).as_map() == old(self).as_map()
                    &&& final(self).vacants().len() == 0
                    &&& final(self).spec_version() == old(self).spec_version()
                    &&& final(self).entries() == compact_entries(old(self).entries())
                    &&& final(self).spec_data_end() as int == 25 + sum_lens(
                        old(self).entries(),
                        old(self).entries().len() as int,
                    )
                    &&& written_image(
                        final(self).bytes(),
                        final(self).spec_version(),
                        final(self).spec_data_end(),
                        index_enc(final(self).entries()),
                        vacant_enc(Seq::<(u64, u64)>::empty()),
                    )
                }),
                Err(e) => e == StorageError::SerializationError && *final(self) == *old(self),
            },
    {
        let ghost es0 = self.entries();
        let ghost b0 = self.inner@;
        let ghost de0 = self.data_end;
        let evec = idx_entries_vec(&self.index);
        proof {
            lemma_entries_view(&evec);
        }
        let mut nbuf = read_range(&self.inner, 0, 25);
        let mut nidx = idx_new();
        let mut pos: u64 = 25;
        let n = evec.len();
        let mut k: usize = 0;
        while k < n
            invariant
                self.wf(),
                n == evec@.len(),
                es0 == evec.deep_view(),
                es0.len() == n,
                forall|i: int|
                    0 <= i < es0.len() ==> es0[i] == ((#[trigger] evec@[i]).0@, evec@[i].1,
                    evec@[i].2),
                es0 == self.entries(),
                b0 == self.inner@,
                de0 == self.spec_data_end(),
                k <= n,
                25 <= pos,
                nbuf@.len() == pos,
                forall|j: int| 0 <= j < 25 ==> nbuf@[j] == b0[j],
                index_entries(nidx).len() == k,
                pos == 25 + sum_lens(es0, k as int),
                index_entries(nidx) == compact_entries(es0).subrange(0, k as int),
                forall|i: int|
                    0 <= i < k ==> ((#[trigger] index_entries(nidx)[i]).0 == es0[i].0
                        && index_entries(nidx)[i].2 == es0[i].2),
                forall|i: int|
                    0 <= i < k ==> 25 <= (#[trigger] index_entries(nidx)[i]).1
                        && index_entries(nidx)[i].1 + index_entries(nidx)[i].2 <= pos,
                forall|i: int|
                    0 <= i && i + 1 < k ==> (#[trigger] index_entries(nidx)[i]).1
                        + index_entries(nidx)[i].2 <= index_entries(nidx)[i + 1].1,
                forall|i: int|
                    0 <= i < k ==> nbuf@.subrange(
                        (#[trigger] index_entries(nidx)[i]).1 as int,
                        index_entries(nidx)[i].1 + index_entries(nidx)[i].2,
                    ) == b0.subrange(es0[i].1 as int, es0[i].1 + es0[i].2),
            decreases n - k,
        {
            let ghost nes_pre = index_entries(nidx);
            let e_off = evec[k].1;
            let e_len = evec[k].2;
            if e_len > u64::MAX - pos {
                proof {
                    assert(es0[k as int].2 == e_len);
                    assert(25 + sum_lens(es0, k as int + 1) > u64::MAX);
                    lemma_sum_lens_mono(es0, k as int + 1, n as int);
                    assert(!compact_fits(*self));
                }
                return Err(StorageError::SerializationError);
            }
            proof {
                assert(es0[k as int].1 == e_off && es0[k as int].2 == e_len);
                assert(HEADER_LEN <= e_off && e_off + e_len <= de0 <= self.inner@.len());
            }
            let val = read_range(&self.inner, e_off, e_len);
            let klen = evec[k].0.len() as u64;
            let key_copy = read_range(&evec[k].0, 0, klen);
            proof {
                assert(key_copy@ =~= es0[k as int].0);
                if has_key(nes_pre, key_copy@) {
                    let i = choose|i: int|
                        0 <= i < nes_pre.len() && (#[trigger] nes_pre[i]).0 == key_copy@;
                    assert(es0[i].0 == es0[k as int].0);
                }
            }
            let _prev = idx_insert(&mut nidx, key_copy, (pos, e_len));
            let ghost nb_pre = nbuf@;
            let mut tmp = val;
            nbuf.append(&mut tmp);
            let ghost old_pos = pos;
            pos = pos + e_len;
            k += 1;
            proof {
                let nes = index_entries(nidx);
                assert(nes == nes_pre.push((es0[k - 1].0, old_pos, e_len)));
                assert(old_pos == 25 + sum_lens(es0, k - 1));
                assert(compact_entries(es0)[k - 1] == (es0[k - 1].0, old_pos, e_len));
                assert(nes =~= compact_entries(es0).subrange(0, k as int));
                assert(pos == 25 + sum_lens(es0, k as int));
                assert(nbuf@ == nb_pre + val@);
                assert forall|i: int|
                    0 <= i < k implies nbuf@.subrange(
                    (#[trigger] nes[i]).1 as int,
                    nes[i].1 + nes[i].2,
                ) == b0.subrange(es0[i].1 as int, es0[i].1 + es0[i].2) by {
                    if i < k - 1 {
                        assert(nes[i] == nes_pre[i]);
                        assert(nes[i].1 + nes[i].2 <= old_pos == nb_pre.len());
                        assert(nbuf@.subrange(nes[i].1 as int, nes[i].1 + nes[i].2)
                            =~= nb_pre.subrange(nes[i].1 as int, nes[i].1 + nes[i].2));
                    } else {
                        assert(nes[i] == (es0[k - 1].0, old_pos, e_len));
                        assert(nbuf@.subrange(old_pos as int, old_pos + e_len) =~= val@);
                    }
                }
            }
        }
        proof {
            assert(es0 =~= es0.subrange(0, n as int));
            assert(index_entries(nidx) =~= compact_entries(es0));
        }
        let ser_i = idx_ser(&nidx).unwrap();
        let empty_pairs: Vec<(u64, u64)> = Vec::new();
        let ser_v = vacant_ser(&empty_pairs).unwrap();
        proof {
            assert(ser_i@ == index_enc(compact_entries(es0)));
            assert(empty_pairs@ =~= Seq::<(u64, u64)>::empty());
            assert(ser_v@ == vacant_enc(Seq::<(u64, u64)>::empty()));
        }
        let l1 = ser_i.len() as u64;
        let l2 = ser_v.len() as u64;
        if pos > u64::MAX - 16 || l1 > u64::MAX - 16 - pos || l2 > u64::MAX - 16 - pos - l1 {
            proof {
                assert(!compact_fits(*self));
            }
            return Err(StorageError::SerializationError);
        }
        if pos + 16 + l1 + l2 > usize::MAX as u64 {
            proof {
                assert(!compact_fits(*self));
            }
            return Err(StorageError::SerializationError);
        }
        let ghost nes = index_entries(nidx);
        let nvac: Vec<VacantBlock> = Vec::new();
        proof {
            lemma_compact_wf(es0, nes, pos, de0);
            assert(pairs_of(nvac@) =~= empty_pairs@);
        }
        let ghost bsnap = nbuf@;
        self.inner = nbuf;
        proof {
            assert(self.inner@.subrange(0, 8) =~= b0.subrange(0, 8));
        }
        self.commit(nidx, nvac, pos, ser_i, ser_v);
        proof {
            lemma_compact_map(b0, bsnap, es0, nes);
        }
        Ok(())
    }
}

/// Entries laid end to end in order have pairwise-disjoint ranges.
proof fn lemma_entries_ordered(es: Seq<(Seq<u8>, u64, u64)>, i: int, j: int)
    requires
        forall|x: int|
            0 <= x && x + 1 < es.len() ==> (#[trigger] es[x]).1 + es[x].2 <= es[x + 1].1,
        0 <= i < j < es.len(),
    ensures
        es[i].1 + es[i].2 <= es[j].1,
    decreases j - i,
{
    if j > i + 1 {
        lemma_entries_ordered(es, i, j - 1);
        assert(es[j - 1].1 + es[j - 1].2 <= es[j].1);
    }
}

/// The entry list built by compaction is well formed against the compacted
/// data region.
#[verifier::rlimit(100)]
proof fn lemma_compact_wf(
    es0: Seq<(Seq<u8>, u64, u64)>,
    nes: Seq<(Seq<u8>, u64, u64)>,
    pos: u64,
    de0: u64,
)
    requires
        forall|i: int, j: int|
            0 <= i < es0.len() && 0 <= j < es0.len() && i != j ==> (#[trigger] es0[i]).0 != (
            #[trigger] es0[j]).0,
        nes.len() == es0.len(),
        forall|i: int| 0 <= i < nes.len() ==> (#[trigger] nes[i]).0 == es0[i].0,
        forall|i: int|
            0 <= i < nes.len() ==> 25 <= (#[trigger] nes[i]).1 && nes[i].1 + nes[i].2 <= pos,
        forall|i: int|
            0 <= i && i + 1 < nes.len() ==> (#[trigger] nes[i]).1 + nes[i].2 <= nes[i + 1].1,
    ensures
        entries_wf(nes, pos),
{
    assert forall|i: int, j: int|
        0 <= i < nes.len() && 0 <= j < nes.len() && i != j implies (#[trigger] nes[i]).0 != (
    #[trigger] nes[j]).0 by {
        assert(nes[i].0 == es0[i].0 && nes[j].0 == es0[j].0);
    }
    assert forall|i: int, j: int|
        0 <= i < nes.len() && 0 <= j < nes.len() && i != j && (#[trigger] nes[i]).2 > 0 && (
    #[trigger] nes[j]).2 > 0 implies (nes[i].1 + nes[i].2 <= nes[j].1 || nes[j].1 + nes[j].2
        <= nes[i].1) by {
        if i < j {
            lemma_entries_ordered(nes, i, j);
        } else {
            lemma_entries_ordered(nes, j, i);
        }
    }
}

/// Compaction moves every value without changing it, so the mapping is
/// unchanged.
#[verifier::rlimit(100)]
proof fn lemma_compact_map(
    b0: Seq<u8>,
    b1: Seq<u8>,
    es0: Seq<(Seq<u8>, u64, u64)>,
    nes: Seq<(Seq<u8>, u64, u64)>,
)
    requires
        forall|i: int, j: int|
            0 <= i < es0.len() && 0 <= j < es0.len() && i != j ==> (#[trigger] es0[i]).0 != (
            #[trigger] es0[j]).0,
        nes.len() == es0.len(),
        forall|i: int|
            0 <= i < nes.len() ==> (#[trigger] nes[i]).0 == es0[i].0 && nes[i].2 == es0[i].2,
        forall|i: int|
            0 <= i < nes.len() ==> b1.subrange(
                (#[trigger] nes[i]).1 as int,
                nes[i].1 + nes[i].2,
            ) == b0.subrange(es0[i].1 as int, es0[i].1 + es0[i].2),
    ensures
        map_of(b1, nes) == map_of(b0, es0),
{
    assert forall|k: Seq<u8>| has_key(nes, k) <==> has_key(es0, k) by {
        if has_key(nes, k) {
            let i = choose|i: int| 0 <= i < nes.len() && (#[trigger] nes[i]).0 == k;
            assert(es0[i].0 == k);
        }
        if has_key(es0, k) {
            let i = choose|i: int| 0 <= i < es0.len() && (#[trigger] es0[i]).0 == k;
            assert(nes[i].0 == k);
        }
    }
    assert forall|k: Seq<u8>| has_key(nes, k) implies map_of(b1, nes)[k] == map_of(b0, es0)[k] by {
        let i = key_at(nes, k);
        assert(0 <= i < nes.len() && nes[i].0 == k);
        let i0 = key_at(es0, k);
        assert(has_key(es0, k));
        assert(0 <= i0 < es0.len() && es0[i0].0 == k);
        assert(es0[i].0 == k);
        assert(i0 == i);
    }
    assert(map_of(b1, nes) =~= map_of(b0, es0));
}

/// The value range of entry `i`, when non-empty, may be freed: it overlaps no
/// vacant block.
proof fn lemma_cross_range_free(es: Seq<(Seq<u8>, u64, u64)>, vs: Seq<VacantBlock>, i: int)
    requires
        entries_blocks_disjoint(es, vs),
        0 <= i < es.len(),
        es[i].2 > 0,
    ensures
        forall|k: int|
            0 <= k < vs.len() ==> (es[i].1 + es[i].2 <= (#[trigger] vs[k]).pos || vs[k].pos
                + vs[k].size <= es[i].1),
{
}

/// A point of a non-empty value range lies inside no vacant block of a
/// layout that keeps values and blocks disjoint.
proof fn lemma_entry_point_free(
    es: Seq<(Seq<u8>, u64, u64)>,
    vs: Seq<VacantBlock>,
    i: int,
    q: int,
)
    requires
        entries_blocks_disjoint(es, vs),
        0 <= i < es.len(),
        es[i].2 > 0,
        es[i].1 <= q < es[i].1 + es[i].2,
    ensures
        !covers(vs, q),
{
    if covers(vs, q) {
        let j = choose|j: int|
            0 <= j < vs.len() && (#[trigger] vs[j]).pos <= q < vs[j].pos + vs[j].size;
        assert(es[i].1 + es[i].2 <= vs[j].pos || vs[j].pos + vs[j].size <= es[i].1);
    }
}

/// Every point inside some block lies between the header and `hi`.
proof fn lemma_covered_bounds(vs: Seq<VacantBlock>, hi: u64)
    requires
        blocks_in_range(vs, hi),
    ensures
        forall|a: int| #[trigger] covers(vs, a) ==> HEADER_LEN <= a < hi,
{
    assert forall|a: int| #[trigger] covers(vs, a) implies HEADER_LEN <= a < hi by {
        let j = choose|j: int|
            0 <= j < vs.len() && (#[trigger] vs[j]).pos <= a < vs[j].pos + vs[j].size;
    }
}

/// Blocks whose covered points all lie between the header and `hi` lie there
/// themselves.
proof fn lemma_bounds_covered(vs: Seq<VacantBlock>, hi: u64)
    requires
        blocks_wf(vs),
        forall|a: int| #[trigger] covers(vs, a) ==> HEADER_LEN <= a < hi,
    ensures
        blocks_in_range(vs, hi),
{
    assert forall|i: int|
        0 <= i < vs.len() implies HEADER_LEN <= (#[trigger] vs[i]).pos && vs[i].pos + vs[i].size
        <= hi by {
        assert(vs[i].size > 0);
        let p = vs[i].pos as int;
        let q = vs[i].pos + vs[i].size - 1;
        assert(vs[i].pos <= p < vs[i].pos + vs[i].size);
        assert(vs[i].pos <= q < vs[i].pos + vs[i].size);
        assert(covers(vs, p));
        assert(covers(vs, q));
    }
}

/// After freeing the replaced entry's range and placing the new value, the
/// chosen offset and the remaining blocks lie within the data region.
#[verifier::rlimit(100)]
#[verifier::spinoff_prover]
proof fn lemma_put_bounds(
    es0: Seq<(Seq<u8>, u64, u64)>,
    vs0: Seq<VacantBlock>,
    de0: u64,
    key: Seq<u8>,
    vlen: u64,
    freed: Seq<VacantBlock>,
    vs2: Seq<VacantBlock>,
    off: u64,
    new_de: u64,
    place: Option<u64>,
)
    requires
        entries_wf(es0, de0),
        blocks_wf(vs0),
        blocks_in_range(vs0, de0),
        HEADER_LEN <= de0,
        blocks_wf(freed),
        has_key(es0, key) ==> 0 <= key_at(es0, key) < es0.len(),
        forall|a: int|
            covers(freed, a) <==> (covers(vs0, a) || (has_key(es0, key) && es0[key_at(es0, key)].1
                <= a < es0[key_at(es0, key)].1 + es0[key_at(es0, key)].2)),
        (place, vs2) == spec_alloc(freed, vlen),
        blocks_wf(vs2),
        place matches Some(o) ==> o == off && new_de == de0 && (forall|a: int|
            off <= a < off + vlen ==> covers(freed, a)) && (forall|a: int|
            covers(vs2, a) <==> (covers(freed, a) && !(off <= a < off + vlen))),
        place == None::<u64> ==> off == de0 && new_de == de0 + vlen && vs2 == freed,
        off + vlen <= u64::MAX,
    ensures
        off + vlen <= new_de,
        HEADER_LEN <= off,
        de0 <= new_de,
        blocks_in_range(freed, de0),
        blocks_in_range(vs2, new_de),
{
    lemma_covered_bounds(vs0, de0);
    assert forall|a: int| #[trigger] covers(freed, a) implies HEADER_LEN <= a < de0 by {
        if !covers(vs0, a) {
            assert(has_key(es0, key));
            let ka = key_at(es0, key);
            assert(HEADER_LEN <= es0[ka].1 && es0[ka].1 + es0[ka].2 <= de0);
        }
    }
    lemma_bounds_covered(freed, de0);
    assert forall|a: int| #[trigger] covers(vs2, a) implies HEADER_LEN <= a < de0 by {
        if place is Some {
            assert(covers(freed, a));
        } else {
            assert(covers(freed, a));
        }
    }
    lemma_bounds_covered(vs2, de0);
    assert(blocks_in_range(vs2, new_de)) by {
        assert forall|i: int|
            0 <= i < vs2.len() implies HEADER_LEN <= (#[trigger] vs2[i]).pos && vs2[i].pos
            + vs2[i].size <= new_de by {}
    }
    if place is Some {
        if vlen > 0 {
            assert(covers(freed, off as int));
            assert(covers(freed, off + vlen - 1));
            assert(HEADER_LEN <= off);
            assert(off + vlen - 1 < de0);
        } else {
            let bf = crate::vacant::best_fit(freed, 0);
            crate::vacant::lemma_best_fit(freed, 0);
            assert(0 <= bf < freed.len());
            assert(off == freed[bf].pos);
            assert(HEADER_LEN <= off && off <= de0);
        }
    }
}

/// The new entry list after a store keeps every entry within the data
/// region, keys unique, and non-empty value ranges disjoint.
#[verifier::rlimit(100)]
#[verifier::spinoff_prover]
proof fn lemma_put_entries_wf(
    es0: Seq<(Seq<u8>, u64, u64)>,
    vs0: Seq<VacantBlock>,
    de0: u64,
    key: Seq<u8>,
    vlen: u64,
    freed: Seq<VacantBlock>,
    off: u64,
    new_de: u64,
    appended: bool,
)
    requires
        entries_wf(es0, de0),
        entries_blocks_disjoint(es0, vs0),
        HEADER_LEN <= de0,
        has_key(es0, key) ==> 0 <= key_at(es0, key) < es0.len() && es0[key_at(es0, key)].0 == key,
        forall|a: int|
            covers(freed, a) <==> (covers(vs0, a) || (has_key(es0, key) && es0[key_at(es0, key)].1
                <= a < es0[key_at(es0, key)].1 + es0[key_at(es0, key)].2)),
        !appended ==> forall|a: int| off <= a < off + vlen ==> covers(freed, a),
        appended ==> off == de0,
        off + vlen <= new_de,
        HEADER_LEN <= off,
        de0 <= new_de,
    ensures
        entries_wf(
            (if has_key(es0, key) {
                es0.update(key_at(es0, key), (key, off, vlen))
            } else {
                es0.push((key, off, vlen))
            }),
            new_de,
        ),
        forall|x: int|
            0 <= x < es0.len() && x != (if has_key(es0, key) {
                key_at(es0, key)
            } else {
                es0.len() as int
            }) && (#[trigger] es0[x]).2 > 0 && vlen > 0 ==> (off + vlen <= es0[x].1 || es0[x].1
                + es0[x].2 <= off),
{
    let ka = key_at(es0, key);
    let nes = if has_key(es0, key) {
        es0.update(ka, (key, off, vlen))
    } else {
        es0.push((key, off, vlen))
    };
    let nk = if has_key(es0, key) {
        ka
    } else {
        es0.len() as int
    };
    assert(nes[nk] == (key, off, vlen));
    assert forall|i: int|
        0 <= i < nes.len() implies HEADER_LEN <= (#[trigger] nes[i]).1 && nes[i].1 + nes[i].2
        <= new_de by {
        if i != nk {
            assert(nes[i] == es0[i]);
        }
    }
    assert forall|i: int, j: int|
        0 <= i < nes.len() && 0 <= j < nes.len() && i != j implies (#[trigger] nes[i]).0 != (
    #[trigger] nes[j]).0 by {
        if i != nk && j != nk {
            assert(nes[i] == es0[i] && nes[j] == es0[j]);
        } else {
            let x = if i == nk {
                j
            } else {
                i
            };
            assert(x != nk && nes[x] == es0[x]);
            if has_key(es0, key) {
                assert(es0[x].0 != es0[ka].0);
            } else {
                assert(!(exists|y: int| 0 <= y < es0.len() && (#[trigger] es0[y]).0 == key));
                assert(es0[x].0 != key);
            }
        }
    }
    assert forall|x: int|
        0 <= x < es0.len() && x != nk && (#[trigger] es0[x]).2 > 0 && vlen > 0 implies (off + vlen
        <= es0[x].1 || es0[x].1 + es0[x].2 <= off) by {
        if !(off + vlen <= es0[x].1 || es0[x].1 + es0[x].2 <= off) {
            let q: int = if off >= es0[x].1 {
                off as int
            } else {
                es0[x].1 as int
            };
            assert(es0[x].1 <= q < es0[x].1 + es0[x].2);
            assert(off <= q < off + vlen);
            if appended {
                assert(es0[x].1 + es0[x].2 <= de0);
                assert(q >= de0);
            } else {
                assert(covers(freed, q));
                lemma_entry_point_free(es0, vs0, x, q);
                assert(!covers(vs0, q));
                assert(has_key(es0, key));
                assert(es0[ka].1 <= q < es0[ka].1 + es0[ka].2);
                assert(es0[ka].2 > 0);
                assert(x != ka);
                assert(es0[x].1 + es0[x].2 <= es0[ka].1 || es0[ka].1 + es0[ka].2 <= es0[x].1);
            }
            assert(false);
        }
    }
    assert forall|i: int, j: int|
        0 <= i < nes.len() && 0 <= j < nes.len() && i != j && (#[trigger] nes[i]).2 > 0 && (
    #[trigger] nes[j]).2 > 0 implies (nes[i].1 + nes[i].2 <= nes[j].1 || nes[j].1 + nes[j].2
        <= nes[i].1) by {
        if i != nk && j != nk {
            assert(nes[i] == es0[i] && nes[j] == es0[j]);
        } else if vlen > 0 {
            let x = if i == nk {
                j
            } else {
                i
            };
            assert(x != nk && nes[x] == es0[x]);
            assert(es0[x].2 > 0);
        }
    }
}

/// After a store, no entry of the new list overlaps a remaining vacant
/// block.
#[verifier::rlimit(100)]
#[verifier::spinoff_prover]
proof fn lemma_put_cross(
    es0: Seq<(Seq<u8>, u64, u64)>,
    vs0: Seq<VacantBlock>,
    de0: u64,
    key: Seq<u8>,
    vlen: u64,
    freed: Seq<VacantBlock>,
    vs2: Seq<VacantBlock>,
    off: u64,
    new_de: u64,
    appended: bool,
)
    requires
        entries_wf(es0, de0),
        entries_blocks_disjoint(es0, vs0),
        HEADER_LEN <= de0,
        has_key(es0, key) ==> 0 <= key_at(es0, key) < es0.len() && es0[key_at(es0, key)].0 == key,
        forall|a: int|
            covers(freed, a) <==> (covers(vs0, a) || (has_key(es0, key) && es0[key_at(es0, key)].1
                <= a < es0[key_at(es0, key)].1 + es0[key_at(es0, key)].2)),
        !appended ==> forall|a: int|
            covers(vs2, a) <==> (covers(freed, a) && !(off <= a < off + vlen)),
        appended ==> off == de0 && vs2 == freed,
        blocks_wf(vs2),
        blocks_in_range(vs2, de0),
        off + vlen <= new_de,
        HEADER_LEN <= off,
        de0 <= new_de,
    ensures
        entries_blocks_disjoint(
            (if has_key(es0, key) {
                es0.update(key_at(es0, key), (key, off, vlen))
            } else {
                es0.push((key, off, vlen))
            }),
            vs2,
        ),
{
    let ka = key_at(es0, key);
    let nes = if has_key(es0, key) {
        es0.update(ka, (key, off, vlen))
    } else {
        es0.push((key, off, vlen))
    };
    let nk = if has_key(es0, key) {
        ka
    } else {
        es0.len() as int
    };
    assert(nes[nk] == (key, off, vlen));
    assert forall|i: int, j: int|
        0 <= i < nes.len() && 0 <= j < vs2.len() && (#[trigger] nes[i]).2 > 0 implies (nes[i].1
        + nes[i].2 <= (#[trigger] vs2[j]).pos || vs2[j].pos + vs2[j].size <= nes[i].1) by {
        if !(nes[i].1 + nes[i].2 <= vs2[j].pos || vs2[j].pos + vs2[j].size <= nes[i].1) {
            let q: int = if nes[i].1 >= vs2[j].pos {
                nes[i].1 as int
            } else {
                vs2[j].pos as int
            };
            assert(nes[i].1 <= q < nes[i].1 + nes[i].2);
            assert(vs2[j].pos <= q < vs2[j].pos + vs2[j].size);
            assert(covers(vs2, q));
            if i == nk {
                assert(off <= q < off + vlen);
                if appended {
                    assert(q < vs2[j].pos + vs2[j].size <= de0);
                    assert(q >= off == de0);
                } else {
                    assert(!(covers(freed, q) && !(off <= q < off + vlen)));
                    assert(!covers(vs2, q));
                }
            } else {
                assert(nes[i] == es0[i]);
                if appended {
                    assert(covers(freed, q));
                } else {
                    assert(covers(freed, q));
                }
                lemma_entry_point_free(es0, vs0, i, q);
                assert(!covers(vs0, q));
                assert(has_key(es0, key));
                assert(es0[ka].1 <= q < es0[ka].1 + es0[ka].2);
                assert(es0[ka].2 > 0 && es0[i].2 > 0 && i != ka);
                assert(es0[i].1 + es0[i].2 <= es0[ka].1 || es0[ka].1 + es0[ka].2 <= es0[i].1);
            }
            assert(false);
        }
    }
}

/// After freeing the replaced entry's range and placing the new value, the
/// new entries, the remaining vacant list and the new data end satisfy every
/// layout invariant.
#[verifier::rlimit(100)]
#[verifier::spinoff_prover]
proof fn lemma_put_state(
    es0: Seq<(Seq<u8>, u64, u64)>,
    vs0: Seq<VacantBlock>,
    de0: u64,
    key: Seq<u8>,
    val: Seq<u8>,
    freed: Seq<VacantBlock>,
    vs2: Seq<VacantBlock>,
    off: u64,
    new_de: u64,
    place: Option<u64>,
)
    requires
        entries_wf(es0, de0),
        blocks_wf(vs0),
        blocks_in_range(vs0, de0),
        entries_blocks_disjoint(es0, vs0),
        HEADER_LEN <= de0,
        val.len() <= u64::MAX,
        freed == (if has_key(es0, key) {
            spec_free(vs0, es0[key_at(es0, key)].1, es0[key_at(es0, key)].2)
        } else {
            vs0
        }),
        blocks_wf(freed),
        forall|a: int|
            covers(freed, a) <==> (covers(vs0, a) || (has_key(es0, key) && es0[key_at(es0, key)].1
                <= a < es0[key_at(es0, key)].1 + es0[key_at(es0, key)].2)),
        (place, vs2) == spec_alloc(freed, val.len() as u64),
        blocks_wf(vs2),
        place matches Some(o) ==> o == off && new_de == de0 && (forall|a: int|
            off <= a < off + val.len() ==> covers(freed, a)) && (forall|a: int|
            covers(vs2, a) <==> (covers(freed, a) && !(off <= a < off + val.len()))),
        place == None::<u64> ==> off == de0 && new_de == de0 + val.len() && vs2 == freed,
        off + val.len() <= u64::MAX,
    ensures
        off + val.len() <= new_de,
        HEADER_LEN <= off,
        de0 <= new_de,
        entries_wf(
            (if has_key(es0, key) {
                es0.update(key_at(es0, key), (key, off, val.len() as u64))
            } else {
                es0.push((key, off, val.len() as u64))
            }),
            new_de,
        ),
        blocks_in_range(vs2, new_de),
        entries_blocks_disjoint(
            (if has_key(es0, key) {
                es0.update(key_at(es0, key), (key, off, val.len() as u64))
            } else {
                es0.push((key, off, val.len() as u64))
            }),
            vs2,
        ),
        forall|x: int|
            0 <= x < es0.len() && x != (if has_key(es0, key) {
                key_at(es0, key)
            } else {
                es0.len() as int
            }) && (#[trigger] es0[x]).2 > 0 && val.len() > 0 ==> (off + val.len() <= es0[x].1
                || es0[x].1 + es0[x].2 <= off),
{
    let vlen = val.len() as u64;
    if has_key(es0, key) {
        let i = choose|i: int| 0 <= i < es0.len() && (#[trigger] es0[i]).0 == key;
        assert(0 <= key_at(es0, key) < es0.len() && es0[key_at(es0, key)].0 == key);
    }
    lemma_put_bounds(es0, vs0, de0, key, vlen, freed, vs2, off, new_de, place);
    let appended = place is None;
    assert(blocks_in_range(vs2, de0));
    lemma_put_entries_wf(es0, vs0, de0, key, vlen, freed, off, new_de, appended);
    lemma_put_cross(es0, vs0, de0, key, vlen, freed, vs2, off, new_de, appended);
}

/// Storing a value rewrites only its own range of the data region, so the
/// mapping gains exactly that key.
#[verifier::rlimit(100)]
#[verifier::spinoff_prover]
proof fn lemma_put_map(
    b0: Seq<u8>,
    b1: Seq<u8>,
    es0: Seq<(Seq<u8>, u64, u64)>,
    nes: Seq<(Seq<u8>, u64, u64)>,
    de0: u64,
    key: Seq<u8>,
    val: Seq<u8>,
    off: u64,
    vlen: u64,
    ka: int,
)
    requires
        entries_wf(es0, de0),
        de0 <= b0.len(),
        vlen == val.len(),
        ka == key_at(es0, key),
        nes == (if has_key(es0, key) {
            es0.update(ka, (key, off, vlen))
        } else {
            es0.push((key, off, vlen))
        }),
        // b1 is b0 with exactly [off, off + vlen) rewritten to val
        b1.len() >= de0,
        b1.len() >= off + vlen,
        forall|k: int| 0 <= k < off ==> b1[k] == b0[k],
        b1.subrange(off as int, off as int + vlen as int) == val,
        forall|k: int| off + vlen <= k < b0.len() ==> b1[k] == b0[k],
        // the new range is disjoint from every other non-empty old range
        forall|x: int|
            0 <= x < es0.len() && x != (if has_key(es0, key) {
                ka
            } else {
                es0.len() as int
            }) && (#[trigger] es0[x]).2 > 0 && vlen > 0 ==> (off + vlen <= es0[x].1 || es0[x].1
                + es0[x].2 <= off),
    ensures
        map_of(b1, nes) == map_of(b0, es0).insert(key, val),
{
    let m0 = map_of(b0, es0);
    let m1 = map_of(b1, nes);
    let nk = if has_key(es0, key) {
        ka
    } else {
        es0.len() as int
    };
    assert(nes[nk] == (key, off, vlen));
    assert(nes.len() == if has_key(es0, key) {
        es0.len()
    } else {
        es0.len() + 1
    });
    // Same keys, plus `key`.
    assert forall|k: Seq<u8>| has_key(nes, k) <==> (has_key(es0, k) || k == key) by {
        if has_key(nes, k) {
            let i = choose|i: int| 0 <= i < nes.len() && (#[trigger] nes[i]).0 == k;
            if i != nk {
                assert(nes[i] == es0[i]);
                assert(es0[i].0 == k);
            }
        }
        if has_key(es0, k) {
            let i = choose|i: int| 0 <= i < es0.len() && (#[trigger] es0[i]).0 == k;
            if k == key {
            } else {
                assert(i != nk || k == key);
                assert(nes[i].0 == k);
            }
        }
        if k == key {
            assert(nes[nk].0 == key);
        }
    }
    assert forall|k: Seq<u8>| has_key(nes, k) implies m1[k] == m0.insert(key, val)[k] by {
        let i = key_at(nes, k);
        assert(0 <= i < nes.len() && nes[i].0 == k);
        if k == key {
            assert(i == nk);
            assert(m1[k] == b1.subrange(off as int, off as int + vlen as int));
            assert(m1[k] == val);
        } else {
            assert(i != nk);
            assert(nes[i] == es0[i]);
            let i0 = key_at(es0, k);
            assert(has_key(es0, k));
            assert(0 <= i0 < es0.len() && es0[i0].0 == k);
            assert(i0 == i);
            let e = es0[i];
            assert(HEADER_LEN <= e.1 && e.1 + e.2 <= de0);
            assert(b1.subrange(e.1 as int, e.1 + e.2) =~= b0.subrange(e.1 as int, e.1 + e.2)) by {
                assert forall|x: int| e.1 <= x < e.1 + e.2 implies b1[x] == b0[x] by {
                    if vlen > 0 && e.2 > 0 {
                        assert(off + vlen <= e.1 || e.1 + e.2 <= off);
                    }
                    assert(x < off || x >= off + vlen);
                }
            }
            assert(m1[k] == b1.subrange(e.1 as int, e.1 + e.2));
            assert(m0[k] == b0.subrange(e.1 as int, e.1 + e.2));
        }
    }
    assert(m1 =~= m0.insert(key, val));
}

/// After removing an entry, the remaining entries and the enlarged vacant
/// list satisfy every layout invariant.
#[verifier::rlimit(100)]
#[verifier::spinoff_prover]
proof fn lemma_remove_state(
    es0: Seq<(Seq<u8>, u64, u64)>,
    vs0: Seq<VacantBlock>,
    de0: u64,
    ka: int,
    nvac: Seq<VacantBlock>,
)
    requires
        entries_wf(es0, de0),
        blocks_wf(vs0),
        blocks_in_range(vs0, de0),
        entries_blocks_disjoint(es0, vs0),
        HEADER_LEN <= de0,
        0 <= ka < es0.len(),
        nvac == spec_free(vs0, es0[ka].1, es0[ka].2),
        blocks_wf(nvac),
        forall|a: int|
            covers(nvac, a) <==> (covers(vs0, a) || (es0[ka].1 <= a < es0[ka].1 + es0[ka].2)),
    ensures
        entries_wf(es0.remove(ka), de0),
        blocks_in_range(nvac, de0),
        entries_blocks_disjoint(es0.remove(ka), nvac),
{
    let nes = es0.remove(ka);
    assert forall|i: int| 0 <= i < nes.len() implies (#[trigger] nes[i]) == (if i < ka {
        es0[i]
    } else {
        es0[i + 1]
    }) by {}
    assert(entries_wf(nes, de0)) by {
        assert forall|i: int, j: int|
            0 <= i < nes.len() && 0 <= j < nes.len() && i != j implies (#[trigger] nes[i]).0 != (
        #[trigger] nes[j]).0 by {
            let oi = if i < ka {
                i
            } else {
                i + 1
            };
            let oj = if j < ka {
                j
            } else {
                j + 1
            };
            assert(nes[i] == es0[oi] && nes[j] == es0[oj] && oi != oj);
        }
        assert forall|i: int, j: int|
            0 <= i < nes.len() && 0 <= j < nes.len() && i != j && (#[trigger] nes[i]).2 > 0 && (
        #[trigger] nes[j]).2 > 0 implies (nes[i].1 + nes[i].2 <= nes[j].1 || nes[j].1 + nes[j].2
            <= nes[i].1) by {
            let oi = if i < ka {
                i
            } else {
                i + 1
            };
            let oj = if j < ka {
                j
            } else {
                j + 1
            };
            assert(nes[i] == es0[oi] && nes[j] == es0[oj] && oi != oj);
        }
    }
    assert(blocks_in_range(nvac, de0)) by {
        assert forall|i: int|
            0 <= i < nvac.len() implies HEADER_LEN <= (#[trigger] nvac[i]).pos && nvac[i].pos
            + nvac[i].size <= de0 by {
            assert(nvac[i].size > 0);
            let p = nvac[i].pos as int;
            let q = nvac[i].pos + nvac[i].size - 1;
            assert(covers(nvac, p));
            assert(covers(nvac, q));
            if covers(vs0, p) {
                let j = choose|j: int|
                    0 <= j < vs0.len() && (#[trigger] vs0[j]).pos <= p < vs0[j].pos + vs0[j].size;
                assert(HEADER_LEN <= vs0[j].pos);
            } else {
                assert(HEADER_LEN <= es0[ka].1);
            }
            if covers(vs0, q) {
                let j = choose|j: int|
                    0 <= j < vs0.len() && (#[trigger] vs0[j]).pos <= q < vs0[j].pos + vs0[j].size;
                assert(q < vs0[j].pos + vs0[j].size <= de0);
            } else {
                assert(q < es0[ka].1 + es0[ka].2 <= de0);
            }
        }
    }
    assert(entries_blocks_disjoint(nes, nvac)) by {
        assert forall|i: int, j: int|
            0 <= i < nes.len() && 0 <= j < nvac.len() && (#[trigger] nes[i]).2 > 0 implies (
        nes[i].1 + nes[i].2 <= (#[trigger] nvac[j]).pos || nvac[j].pos + nvac[j].size
            <= nes[i].1) by {
            let oi = if i < ka {
                i
            } else {
                i + 1
            };
            assert(nes[i] == es0[oi] && oi != ka);
            if !(nes[i].1 + nes[i].2 <= nvac[j].pos || nvac[j].pos + nvac[j].size <= nes[i].1) {
                let q: int = if nes[i].1 >= nvac[j].pos {
                    nes[i].1 as int
                } else {
                    nvac[j].pos as int
                };
                assert(nes[i].1 <= q < nes[i].1 + nes[i].2);
                assert(nvac[j].pos <= q < nvac[j].pos + nvac[j].size);
                assert(covers(nvac, q));
                if covers(vs0, q) {
                    lemma_entry_point_free(es0, vs0, oi, q);
                } else {
                    assert(es0[ka].1 <= q < es0[ka].1 + es0[ka].2);
                    assert(es0[ka].2 > 0 && es0[oi].2 > 0 && oi != ka);
                    assert(es0[oi].1 + es0[oi].2 <= es0[ka].1 || es0[ka].1 + es0[ka].2
                        <= es0[oi].1);
                    assert(false);
                }
            }
        }
    }
}

/// Removing an entry removes exactly its key from the mapping; the bytes are
/// untouched.
#[verifier::rlimit(100)]
proof fn lemma_remove_map(b0: Seq<u8>, es0: Seq<(Seq<u8>, u64, u64)>, ka: int)
    requires
        forall|i: int, j: int|
            0 <= i < es0.len() && 0 <= j < es0.len() && i != j ==> (#[trigger] es0[i]).0 != (
            #[trigger] es0[j]).0,
        0 <= ka < es0.len(),
    ensures
        map_of(b0, es0.remove(ka)) == map_of(b0, es0).remove(es0[ka].0),
{
    let nes = es0.remove(ka);
    let key = es0[ka].0;
    assert forall|i: int| 0 <= i < nes.len() implies (#[trigger] nes[i]) == (if i < ka {
        es0[i]
    } else {
        es0[i + 1]
    }) by {}
    assert forall|k: Seq<u8>| has_key(nes, k) <==> (has_key(es0, k) && k != key) by {
        if has_key(nes, k) {
            let i = choose|i: int| 0 <= i < nes.len() && (#[trigger] nes[i]).0 == k;
            let oi = if i < ka {
                i
            } else {
                i + 1
            };
            assert(es0[oi].0 == k && oi != ka);
            assert(k != key);
        }
        if has_key(es0, k) && k != key {
            let i = choose|i: int| 0 <= i < es0.len() && (#[trigger] es0[i]).0 == k;
            assert(i != ka);
            let ni = if i < ka {
                i
            } else {
                i - 1
            };
            assert(nes[ni].0 == k);
        }
    }
    assert forall|k: Seq<u8>| has_key(nes, k) implies map_of(b0, nes)[k] == map_of(b0, es0)[k] by {
        let i = key_at(nes, k);
        assert(0 <= i < nes.len() && nes[i].0 == k);
        let oi = if i < ka {
            i
        } else {
            i + 1
        };
        assert(nes[i] == es0[oi]);
        let i0 = key_at(es0, k);
        assert(has_key(es0, k));
        assert(0 <= i0 < es0.len() && es0[i0].0 == k);
        assert(i0 == oi);
    }
    assert(map_of(b0, nes) =~= map_of(b0, es0).remove(key));
}

/// Writes `data` into `v` at offset `off`, growing `v` where the write runs
/// past its end.
fn write_at(v: &mut Vec<u8>, off: u64, data: &Vec<u8>)
    requires
        off <= old(v)@.len(),
        off + data@.len() <= u64::MAX,
        off + data@.len() <= usize::MAX,
    ensures
        final(v)@.len() == (if off + data@.len() > old(v)@.len() {
            off + data@.len()
        } else {
            old(v)@.len() as int
        }),
        forall|k: int| 0 <= k < off ==> final(v)@[k] == old(v)@[k],
        final(v)@.subrange(off as int, off as int + data@.len() as int) == data@,
        forall|k: int| off + data@.len() <= k < old(v)@.len() ==> final(v)@[k] == old(v)@[k],
{
    let o = off as usize;
    let m = data.len();
    let mut i: usize = 0;
    while i < m
        invariant
            o == off,
            m == data@.len(),
            o + m <= usize::MAX,
            i <= m,
            o <= old(v)@.len(),
            v@.len() == (if o + i > old(v)@.len() {
                o + i
            } else {
                old(v)@.len() as int
            }),
            forall|k: int| 0 <= k < o ==> v@[k] == old(v)@[k],
            forall|k: int| 0 <= k < i ==> v@[o + k] == data@[k],
            forall|k: int| o + m <= k < old(v)@.len() ==> v@[k] == old(v)@[k],
        decreases m - i,
    {
        let idx = o + i;
        if idx < v.len() {
            v[idx] = data[i];
        } else {
            proof {
                assert(idx == v@.len());
            }
            v.push(data[i]);
        }
        i += 1;
    }
    proof {
        assert(v@.subrange(off as int, off as int + data@.len() as int) =~= data@);
    }
}

/// Copies a list of vacant blocks.
fn clone_blocks(v: &Vec<VacantBlock>) -> (r: Vec<VacantBlock>)
    ensures
        r@ == v@,
{
    let mut r: Vec<VacantBlock> = Vec::new();
    let mut i: usize = 0;
    while i < v.len()
        invariant
            i <= v@.len(),
            r@ == v@.subrange(0, i as int),
        decreases v@.len() - i,
    {
        r.push(v[i]);
        proof {
            assert(r@ =~= v@.subrange(0, i as int + 1));
        }
        i += 1;
    }
    proof {
        assert(v@.subrange(0, v@.len() as int) =~= v@);
    }
    r
}

/// The `(offset, size)` pairs of a list of vacant blocks, for serialization.
fn pairs_vec(v: &Vec<VacantBlock>) -> (r: Vec<(u64, u64)>)
    ensures
        r@ == pairs_of(v@),
{
    let mut r: Vec<(u64, u64)> = Vec::new();
    let mut i: usize = 0;
    while i < v.len()
        invariant
            i <= v@.len(),
            r@ == pairs_of(v@.subrange(0, i as int)),
        decreases v@.len() - i,
    {
        let bl = v[i];
        r.push((bl.pos, bl.size));
        proof {
            assert(pairs_of(v@.subrange(0, i as int)).push((v@[i as int].pos, v@[i as int].size))
                =~= pairs_of(v@.subrange(0, i as int + 1)));
        }
        i += 1;
    }
    proof {
        assert(v@.subrange(0, v@.len() as int) =~= v@);
        assert(pairs_of(v@.subrange(0, v@.len() as int)) == pairs_of(v@));
    }
    r
}

/// Copies `len` bytes of `v` starting at `off`.
pub fn read_range(v: &Vec<u8>, off: u64, len: u64) -> (r: Vec<u8>)
    requires
        off + len <= v@.len(),
    ensures
        r@ == v@.subrange(off as int, off as int + len as int),
{
    let n = v.len();
    proof {
        assert(n == v@.len());
        assert(off <= n && len <= n);
    }
    let o = off as usize;
    let l = len as usize;
    proof {
        assert(o == off && l == len);
    }
    let mut r: Vec<u8> = Vec::new();
    let mut i: usize = 0;
    while i < l
        invariant
            o == off,
            l == len,
            o + l <= v@.len(),
            v@.len() <= usize::MAX,
            i <= l,
            r@ == v@.subrange(o as int, o as int + i as int),
        decreases l - i,
    {
        r.push(v[o + i]);
        proof {
            assert(r@ =~= v@.subrange(o as int, o as int + i as int + 1));
        }
        i += 1;
    }
    r
}

} // verus!
