//! The page store: the database file's bytes, the page allocator, and the
//! codec that turns a node into bytes.
//!
//! Every page is a fixed slot of `PAGE_SIZE` bytes: a `u32` little-endian
//! length prefix, then the codec's output, then zero padding. The pager
//! works on the file's contents held in memory and records which pages each
//! call wrote, so that whoever owns the file can write exactly those back.

use vstd::prelude::*;

use crate::codec::Codec;
use crate::error::{DbError, PageId, ValueError};
use crate::key::{le_bytes_32, le_value_32, lemma_le_32, Key};
use crate::node::{Node, NodeModel};
use crate::page::{from_value, layout_node, layout_value, lemma_layout_round_trip, to_value};
use crate::value::ValueModel;

verus! {

/// The size of one page in the file.
pub const PAGE_SIZE: usize = 4096;

/// The size of a page's length prefix.
pub const LEN_PREFIX: usize = 4;

/// The most payload bytes a page can hold.
pub const CAPACITY: usize = 4092;

/// Does the file hold all of page `id`?
pub open spec fn page_present(image: Seq<u8>, id: int) -> bool {
    0 <= id && (id + 1) * PAGE_SIZE <= image.len()
}

/// The payload length that page `id`'s prefix claims.
pub open spec fn claimed_len(image: Seq<u8>, id: int) -> u32 {
    le_value_32(image.subrange(id * PAGE_SIZE, id * PAGE_SIZE + LEN_PREFIX))
}

/// The payload bytes of page `id`, as its prefix delimits them.
pub open spec fn payload(image: Seq<u8>, id: int) -> Seq<u8> {
    image.subrange(id * PAGE_SIZE + LEN_PREFIX, id * PAGE_SIZE + LEN_PREFIX + claimed_len(image, id))
}

/// Is page `id` zero from the end of its payload to the end of the page?
pub open spec fn page_zero_padded(image: Seq<u8>, id: int) -> bool {
    forall|j: int|
        id * PAGE_SIZE + LEN_PREFIX + claimed_len(image, id) <= j < id * PAGE_SIZE + PAGE_SIZE
            ==> #[trigger] image[j] == 0
}

/// Is `len` the length of an encoding this pager's codec actually makes of
/// a node: a byte string of that length that the codec reads back as some
/// node's page layout?
pub open spec fn encodes_a_node<K: Key>(p: Pager, len: int) -> bool {
    exists|b: Seq<u8>, n: NodeModel<K>|
        #![trigger p.codec_decode(b), layout_value(n)]
        b.len() == len && p.codec_decode(b) is Ok && p.codec_decode(b)->Ok_0@ == layout_value(n)
}

/// Does page `id` hold a payload its prefix can delimit?
pub open spec fn page_readable(image: Seq<u8>, id: int) -> bool {
    page_present(image, id) && claimed_len(image, id) <= CAPACITY
}

/// Owns the database file's contents, the page allocator, and the codec.
///
/// There is no free list: [`Pager::allocate_page`] only ever grows, so
/// pages orphaned by a merge stay in the file as dead space.
pub struct Pager {
    image: Vec<u8>,
    next_page_id: PageId,
    codec: Box<dyn Codec>,
    dirty: Vec<PageId>,
    written: Ghost<Map<PageId, ValueModel>>,
}

impl Pager {
    /// The file's contents.
    pub closed spec fn image(&self) -> Seq<u8> {
        self.image@
    }

    /// The id the next allocation hands out.
    pub closed spec fn next_id(&self) -> PageId {
        self.next_page_id
    }

    /// What the codec reads from a byte string.
    pub closed spec fn codec_decode(&self, bytes: Seq<u8>) -> Result<crate::value::Value, ValueError> {
        self.codec.spec_decode(bytes)
    }

    /// The name of the codec.
    pub closed spec fn codec_name(&self) -> &'static str {
        self.codec.spec_name()
    }

    /// The pages this pager has written, by the model of the value each holds.
    pub closed spec fn written(&self) -> Map<PageId, ValueModel> {
        self.written@
    }

    /// The pages written since the file last took them.
    pub closed spec fn dirty(&self) -> Seq<PageId> {
        self.dirty@
    }

    /// Every written page reads back as what was written to it.
    pub closed spec fn inv(&self) -> bool {
        forall|id: PageId| #[trigger]
            self.written@.contains_key(id) ==> {
                &&& id < self.next_page_id
                &&& page_readable(self.image@, id as int)
                &&& self.codec.spec_decode(payload(self.image@, id as int)) is Ok
                &&& self.codec.spec_decode(payload(self.image@, id as int))->Ok_0@
                    == self.written@[id]
            }
    }

    /// Opens a pager over `image`, the file's current contents, with the given codec.
    ///
    /// Nothing in the file says which codec wrote it: opening with the wrong
    /// codec succeeds here, and fails on the first [`Pager::read_page`].
    pub fn open_with(image: Vec<u8>, codec: Box<dyn Codec>) -> (r: Pager)
        ensures
            r.inv(),
            r.image() == image@,
            r.next_id() == image@.len() / (PAGE_SIZE as nat),
            r.written() == Map::<PageId, ValueModel>::empty(),
            r.dirty() == Seq::<PageId>::empty(),
    {
        let next_page_id = (image.len() / PAGE_SIZE) as u64;
        Pager { image, next_page_id, codec, dirty: Vec::new(), written: Ghost(Map::empty()) }
    }

    /// The codec this pager encodes and decodes pages with.
    pub fn codec(&self) -> (r: &Box<dyn Codec>)
        ensures
            forall|b: Seq<u8>| #[trigger] r.spec_decode(b) == self.codec_decode(b),
            r.spec_name() == self.codec_name(),
    {
        &self.codec
    }

    /// The file's contents.
    pub fn file_bytes(&self) -> (r: &[u8])
        ensures
            r@ == self.image(),
    {
        self.image.as_slice()
    }

    /// The id the next allocation hands out.
    pub fn next_page_id(&self) -> (r: PageId)
        ensures
            r == self.next_id(),
    {
        self.next_page_id
    }

    /// Hands over the ids of the pages written since the last call, oldest first.
    pub fn take_dirty(&mut self) -> (r: Vec<PageId>)
        ensures
            r@ == old(self).dirty(),
            final(self).dirty() == Seq::<PageId>::empty(),
            final(self).image() == old(self).image(),
            final(self).next_id() == old(self).next_id(),
            final(self).written() == old(self).written(),
            forall|b: Seq<u8>| #[trigger] final(self).codec_decode(b) == old(self).codec_decode(b),
            final(self).codec_name() == old(self).codec_name(),
            final(self).inv() == old(self).inv(),
    {
        let mut taken: Vec<PageId> = Vec::new();
        std::mem::swap(&mut taken, &mut self.dirty);
        taken
    }

    /// Reserves the next unused page id. Does no I/O.
    pub fn allocate_page(&mut self) -> (r: PageId)
        requires
            old(self).next_id() < u64::MAX,
        ensures
            r == old(self).next_id(),
            final(self).next_id() == r + 1,
            final(self).image() == old(self).image(),
            final(self).written() == old(self).written(),
            final(self).dirty() == old(self).dirty(),
            forall|b: Seq<u8>| #[trigger] final(self).codec_decode(b) == old(self).codec_decode(b),
            final(self).codec_name() == old(self).codec_name(),
            old(self).inv() ==> final(self).inv(),
    {
        let id = self.next_page_id;
        self.next_page_id = self.next_page_id + 1;
        id
    }

    /// Reads and decodes page `id` into a node.
    ///
    /// An `Io` error if the file does not hold the whole page, `CorruptPage`
    /// if its length prefix is impossible, and a `Value` error naming the
    /// codec if the codec cannot decode its bytes or they are not a node's
    /// layout.
    pub fn read_page<K: Key>(&self, id: PageId) -> (r: Result<Node<K>, DbError>)
        ensures
            !page_present(self.image(), id as int) ==> r matches Err(DbError::Io { .. }),
            page_present(self.image(), id as int) && !page_readable(self.image(), id as int) ==> r
                == Err::<Node<K>, DbError>(
                DbError::CorruptPage {
                    page: id,
                    len: claimed_len(self.image(), id as int) as usize,
                    capacity: CAPACITY,
                },
            ),
            page_readable(self.image(), id as int) ==> match self.codec_decode(
                payload(self.image(), id as int),
            ) {
                Err(e) => r == Err::<Node<K>, DbError>(DbError::Value(e)) && e is Decode && e->codec
                    == self.codec_name(),
                Ok(w) => match layout_node::<K>(w@) {
                    Some(n) => r matches Ok(node) && node@ == n,
                    None => r matches Err(DbError::Value(ValueError::Decode { codec, .. })) && codec
                        == self.codec_name(),
                },
            },
    {
        let len = self.image.len();
        if id as u128 >= (len / PAGE_SIZE) as u128 {
            proof {
                assert(!page_present(self.image(), id as int)) by (nonlinear_arith)
                    requires
                        id >= len / 4096,
                        len == self.image@.len(),
                ;
            }
            return Err(DbError::Io { message: "failed to fill whole buffer".to_string() });
        }
        proof {
            assert((id + 1) * 4096 <= len) by (nonlinear_arith)
                requires
                    id < len / 4096,
            ;
        }
        let offset = (id as usize) * PAGE_SIZE;
        let claimed = (self.image[offset] as u32) | ((self.image[offset + 1] as u32) << 8u32) | ((
        self.image[offset + 2] as u32) << 16u32) | ((self.image[offset + 3] as u32) << 24u32);
        proof {
            let pre = self.image@.subrange(offset as int, offset + 4);
            assert(pre[0] == self.image@[offset as int]);
            assert(pre[1] == self.image@[offset + 1]);
            assert(pre[2] == self.image@[offset + 2]);
            assert(pre[3] == self.image@[offset + 3]);
            assert(claimed == claimed_len(self.image@, id as int));
        }
        if claimed as usize > CAPACITY {
            return Err(DbError::CorruptPage { page: id, len: claimed as usize, capacity: CAPACITY });
        }
        let data = vstd::slice::slice_subrange(
            self.image.as_slice(),
            offset + LEN_PREFIX,
            offset + LEN_PREFIX + claimed as usize,
        );
        let value = match self.codec.decode(data) {
            Ok(value) => value,
            Err(e) => return Err(DbError::Value(e)),
        };
        match from_value::<K>(value, self.codec.name()) {
            Ok(node) => Ok(node),
            Err(e) => Err(DbError::Value(e)),
        }
    }

    /// Encodes `node` and writes it to page `id`, growing the file if needed.
    ///
    /// On an error nothing changes: `PageOverflow`, naming this pager's codec,
    /// if the encoded node does not fit in one page; `Io` if the page lies
    /// beyond any addressable offset. On success the page reads back as `node`,
    /// whatever its id.
    pub fn write_page<K: Key>(&mut self, id: PageId, node: &Node<K>) -> (r: Result<(), DbError>)
        ensures
            old(self).inv() && id < old(self).next_id() ==> final(self).inv(),
            final(self).next_id() == old(self).next_id(),
            forall|b: Seq<u8>| #[trigger] final(self).codec_decode(b) == old(self).codec_decode(b),
            final(self).codec_name() == old(self).codec_name(),
            id >= usize::MAX / PAGE_SIZE ==> r is Err,
            r is Ok ==> final(self).written() == old(self).written().insert(id, layout_value(node@)),
            r is Ok ==> final(self).dirty() == old(self).dirty().push(id),
            r is Ok ==> page_readable(final(self).image(), id as int),
            r is Ok ==> final(self).codec_decode(payload(final(self).image(), id as int)) is Ok,
            r is Ok ==> final(self).codec_decode(payload(final(self).image(), id as int))->Ok_0@
                == layout_value(node@),
            r is Ok ==> page_zero_padded(final(self).image(), id as int),
            r is Ok ==> final(self).image().len() >= old(self).image().len(),
            r is Ok ==> forall|j: int|
                0 <= j < old(self).image().len() && !(id * PAGE_SIZE <= j < id * PAGE_SIZE + PAGE_SIZE)
                    ==> #[trigger] final(self).image()[j] == old(self).image()[j],
            r is Err ==> *final(self) == *old(self),
            r matches Err(e) ==> (e is Io && id >= usize::MAX / PAGE_SIZE) || (
            e matches DbError::PageOverflow { len, codec, capacity } && len > CAPACITY && capacity
                == CAPACITY && codec == old(self).codec_name()),
            r matches Err(DbError::PageOverflow { len, .. }) ==> encodes_a_node::<K>(*old(self), len as int),
    {
        let value = match to_value(node) {
            Ok(value) => value,
            Err(e) => return Err(e),
        };
        let data = self.codec.encode(&value);
        let ghost before = *self;
        let r = self.write_encoded(id, data.as_slice());
        proof {
            if r is Err {
                assert(before.codec_decode(data@) is Ok);
                assert(before.codec_decode(data@)->Ok_0@ == layout_value(node@));
            }
        }
        if r.is_ok() {
            let ghost mid = *self;
            proof {
                self.written@ = self.written@.insert(id, value@);
                assert forall|b: Seq<u8>| #[trigger] self.codec_decode(b) == before.codec_decode(b) by {
                    assert(mid.codec_decode(b) == before.codec_decode(b));
                }
                assert(self.codec_decode(payload(self.image@, id as int)) == before.codec_decode(data@));
                if before.inv() && id < before.next_id() {
                    assert forall|other: PageId| #[trigger] self.written@.contains_key(other) implies {
                        &&& other < self.next_page_id
                        &&& page_readable(self.image@, other as int)
                        &&& self.codec.spec_decode(payload(self.image@, other as int)) is Ok
                        &&& self.codec.spec_decode(payload(self.image@, other as int))->Ok_0@
                            == self.written@[other]
                    } by {
                        if other != id {
                            assert(mid.written@.contains_key(other));
                            assert(mid.codec_decode(payload(self.image@, other as int))
                                == self.codec_decode(payload(self.image@, other as int)));
                        }
                    }
                }
            }
        }
        r
    }

    /// Writes `data` to page `id` as its payload, growing the file if needed:
    /// the page becomes `data`'s length as a little-endian `u32`, then `data`,
    /// then zeros to the end of the page.
    ///
    /// On an error nothing changes: `PageOverflow`, naming this pager's codec,
    /// if `data` does not fit in one page; `Io` if the page lies beyond any
    /// addressable offset. Whatever page `id` held before is no longer on
    /// record as written.
    pub fn write_encoded(&mut self, id: PageId, data: &[u8]) -> (r: Result<(), DbError>)
        ensures
            r is Ok <==> data@.len() <= CAPACITY && id < usize::MAX / PAGE_SIZE,
            data@.len() > CAPACITY ==> r == Err::<(), DbError>(
                DbError::PageOverflow {
                    len: data.len(),
                    codec: old(self).codec_name(),
                    capacity: CAPACITY,
                },
            ),
            data@.len() <= CAPACITY && id >= usize::MAX / PAGE_SIZE ==> r matches Err(DbError::Io { .. }),
            old(self).inv() ==> final(self).inv(),
            final(self).next_id() == old(self).next_id(),
            forall|b: Seq<u8>| #[trigger] final(self).codec_decode(b) == old(self).codec_decode(b),
            final(self).codec_name() == old(self).codec_name(),
            r is Err ==> *final(self) == *old(self),
            r is Ok ==> final(self).written() == old(self).written().remove(id),
            r is Ok ==> final(self).dirty() == old(self).dirty().push(id),
            r is Ok ==> page_present(final(self).image(), id as int),
            r is Ok ==> claimed_len(final(self).image(), id as int) == data@.len(),
            r is Ok ==> payload(final(self).image(), id as int) == data@,
            r is Ok ==> page_zero_padded(final(self).image(), id as int),
            r is Ok ==> final(self).image().len() == if old(self).image().len() >= (id + 1) * PAGE_SIZE {
                old(self).image().len() as int
            } else {
                (id + 1) * PAGE_SIZE
            },
            r is Ok ==> forall|j: int|
                0 <= j < old(self).image().len() && !(id * PAGE_SIZE <= j < id * PAGE_SIZE + PAGE_SIZE)
                    ==> #[trigger] final(self).image()[j] == old(self).image()[j],
    {
        if data.len() > CAPACITY {
            return Err(
                DbError::PageOverflow { len: data.len(), codec: self.codec.name(), capacity: CAPACITY },
            );
        }
        if id as u128 >= (usize::MAX / PAGE_SIZE) as u128 {
            return Err(DbError::Io { message: "page offset out of range".to_string() });
        }
        proof {
            assert((id + 1) * 4096 <= usize::MAX) by (nonlinear_arith)
                requires
                    id < usize::MAX / 4096,
            ;
        }
        let offset = (id as usize) * PAGE_SIZE;
        let end = offset + PAGE_SIZE;
        let ghost before = self.image@;
        while self.image.len() < end
            invariant
                self.written == old(self).written,
                self.next_page_id == old(self).next_page_id,
                self.dirty == old(self).dirty,
                self.codec == old(self).codec,
                before == old(self).image@,
                self.image@.len() <= end || self.image@.len() == before.len(),
                self.image@.len() >= before.len(),
                forall|j: int| 0 <= j < before.len() ==> #[trigger] self.image@[j] == before[j],
            decreases end - self.image@.len(),
        {
            self.image.push(0u8);
        }
        let len32 = data.len() as u32;
        let b0 = (len32 & 0xff) as u8;
        let b1 = ((len32 >> 8u32) & 0xff) as u8;
        let b2 = ((len32 >> 16u32) & 0xff) as u8;
        let b3 = ((len32 >> 24u32) & 0xff) as u8;
        let ghost prefix = le_bytes_32(len32);
        let ghost grown = self.image@;
        let mut i: usize = 0;
        while i < PAGE_SIZE
            invariant
                i <= PAGE_SIZE,
                end == offset + PAGE_SIZE,
                self.image@.len() == grown.len(),
                grown.len() >= end,
                grown.len() == if before.len() >= end { before.len() } else { end as nat },
                before.len() <= grown.len(),
                forall|j: int| 0 <= j < before.len() ==> #[trigger] grown[j] == before[j],
                self.written == old(self).written,
                self.next_page_id == old(self).next_page_id,
                self.dirty == old(self).dirty,
                self.codec == old(self).codec,
                before == old(self).image@,
                data@.len() <= CAPACITY,
                forall|j: int|
                    0 <= j < grown.len() && !(offset <= j < offset + i) ==> #[trigger] self.image@[j]
                        == grown[j],
                forall|j: int| 0 <= j < i && j < 4 ==> #[trigger] self.image@[offset + j] == prefix[j],
                prefix == le_bytes_32(len32),
                b0 == prefix[0] && b1 == prefix[1] && b2 == prefix[2] && b3 == prefix[3],
                forall|j: int|
                    4 <= j < i && j < 4 + data@.len() ==> #[trigger] self.image@[offset + j] == data@[j
                        - 4],
                forall|j: int| 4 + data@.len() <= j < i ==> #[trigger] self.image@[offset + j] == 0,
            decreases PAGE_SIZE - i,
        {
            let byte = if i == 0 {
                b0
            } else if i == 1 {
                b1
            } else if i == 2 {
                b2
            } else if i == 3 {
                b3
            } else if i < LEN_PREFIX + data.len() {
                data[i - LEN_PREFIX]
            } else {
                0u8
            };
            self.image.set(offset + i, byte);
            i += 1;
        }
        proof {
            lemma_le_32(len32);
            let img = self.image@;
            assert forall|j: int| 0 <= j < 4 implies #[trigger] img.subrange(offset as int, offset + 4)[j]
                == le_bytes_32(len32)[j] by {
                assert(img[offset + j] == prefix[j]);
            }
            assert(img.subrange(offset as int, offset + 4) =~= le_bytes_32(len32));
            assert(claimed_len(img, id as int) == len32);
            assert forall|j: int| 0 <= j < data@.len() implies #[trigger] payload(img, id as int)[j]
                == data@[j] by {
                assert(img[offset + (j + 4)] == data@[(j + 4) - 4]);
            }
            assert(payload(img, id as int) =~= data@);
            assert forall|j: int|
                offset + LEN_PREFIX + data@.len() <= j < offset + PAGE_SIZE implies #[trigger] img[j] == 0 by {
                assert(img[offset + (j - offset)] == 0);
            }
            assert forall|other: PageId| #[trigger]
                self.written@.contains_key(other) && other != id && old(self).inv() implies page_readable(img, other as int)
                && payload(img, other as int) == payload(before, other as int) by {
                let o = other as int;
                assert(o < id || o > id);
                if o < id {
                    assert((o + 1) * 4096 <= id * 4096) by (nonlinear_arith)
                        requires
                            o < id,
                    ;
                } else {
                    assert((id + 1) * 4096 <= o * 4096) by (nonlinear_arith)
                        requires
                            o > id,
                    ;
                }
                assert(page_readable(before, o));
                assert forall|j: int| o * 4096 <= j < o * 4096 + 4096 implies #[trigger] img[j] == before[j] by {
                    assert(grown[j] == before[j]);
                }
                assert(img.subrange(o * 4096, o * 4096 + 4) =~= before.subrange(o * 4096, o * 4096 + 4));
                assert(payload(img, o) =~= payload(before, o));
            }
        }
        self.dirty.push(id);
        proof {
            self.written@ = self.written@.remove(id);
        }
        Ok(())
    }
}

/// A page written with a node reads back as that node.
pub proof fn lemma_read_after_write<K: Key>(p: &Pager, id: PageId, n: NodeModel<K>)
    requires
        p.inv(),
        p.written().contains_key(id),
        p.written()[id] == layout_value(n),
    ensures
        page_readable(p.image(), id as int),
        p.codec_decode(payload(p.image(), id as int)) is Ok,
        layout_node::<K>(p.codec_decode(payload(p.image(), id as int))->Ok_0@) == Some(n),
{
    lemma_layout_round_trip(n);
}

/// A written page is readable, decodes to what was written, and has an allocated id.
pub proof fn lemma_written_readable(p: &Pager, id: PageId)
    requires
        p.inv(),
        p.written().contains_key(id),
    ensures
        id < p.next_id(),
        page_readable(p.image(), id as int),
        p.codec_decode(payload(p.image(), id as int)) is Ok,
        p.codec_decode(payload(p.image(), id as int))->Ok_0@ == p.written()[id],
{
}

} // verus!
