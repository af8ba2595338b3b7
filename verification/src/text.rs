//! An image as text: a listing of its chunks, and a grid of its bytes.

use crate::chunk::{Chunk, Data};
use crate::digits::{hex2, hex4, hex8, push_hex2, push_hex4, push_hex8};
use crate::image::{byte_at, range_bytes, range_covered, views, HexFile, HexImage};
use crate::range::AddrRange;
use itertools::Itertools;
use vstd::prelude::*;
use vstd::string::StringSliceAdditionalSpecFns;

verus! {

/// The number of clusters that a line of the grid holds.
pub const CLUSTERS_PER_LINE: usize = 4;

/// The number of clusters of `size` addresses that the addresses
/// `start ..= end` fall into, the last of which may hold fewer.
pub open spec fn cluster_count(start: u32, end: u32, size: int) -> int {
    if start > end {
        0
    } else {
        (end - start + size) / size
    }
}

/// The addresses of the cluster with number `k`, in ascending order.
pub open spec fn cluster_at(start: u32, end: u32, size: int, k: int) -> Seq<u32> {
    let first = start + k * size;
    let len = if first + size - 1 <= end {
        size
    } else {
        end - first + 1
    };
    Seq::new(len as nat, |i: int| (first + i) as u32)
}

/// The addresses `start ..= end` in clusters of `size` addresses.
pub open spec fn clusters(start: u32, end: u32, size: int) -> Seq<Seq<u32>> {
    Seq::new(cluster_count(start, end, size) as nat, |k: int| cluster_at(start, end, size, k))
}

/// The address sequences that a vector of address vectors stands for.
pub open spec fn group_views(groups: Seq<Vec<u32>>) -> Seq<Seq<u32>> {
    groups.map_values(|g: Vec<u32>| g@)
}

/// The first address of each cluster is one of `start ..= end`.
pub proof fn lemma_cluster_first(start: u32, end: u32, size: int, k: int)
    requires
        size > 0,
        0 <= k < cluster_count(start, end, size),
    ensures
        0 <= k * size,
        start + k * size <= end,
{
    let count = cluster_count(start, end, size);
    let n = end - start + size;
    assert(k * size <= (count - 1) * size && 0 <= k * size) by (nonlinear_arith)
        requires
            0 <= k <= count - 1,
            size > 0,
    ;
    assert(count * size <= n) by (nonlinear_arith)
        requires
            count == n / size,
            size > 0,
            n >= 0,
    ;
    assert((count - 1) * size == count * size - size) by (nonlinear_arith);
}

/// Each cluster holds at least one address and at most `size`, and all of
/// them lie in `start ..= end`.
pub proof fn lemma_clusters(start: u32, end: u32, size: int)
    requires
        size > 0,
    ensures
        forall|k: int|
            0 <= k < clusters(start, end, size).len() ==> 1 <= (#[trigger] clusters(
                start,
                end,
                size,
            )[k]).len() <= size,
        forall|k: int, i: int|
            0 <= k < clusters(start, end, size).len() && 0 <= i < clusters(start, end, size)[k].len()
                ==> start <= (#[trigger] clusters(start, end, size)[k][i]) <= end,
{
    assert forall|k: int| 0 <= k < clusters(start, end, size).len() implies 1 <= (
    #[trigger] clusters(start, end, size)[k]).len() <= size by {
        lemma_cluster_first(start, end, size, k);
    }
    assert forall|k: int, i: int|
        0 <= k < clusters(start, end, size).len() && 0 <= i < clusters(
            start,
            end,
            size,
        )[k].len() implies start <= (#[trigger] clusters(start, end, size)[k][i]) <= end by {
        lemma_cluster_first(start, end, size, k);
    }
}

/// `itertools::Itertools::chunks` on the addresses `start ..= end`, with each
/// chunk gathered by `itertools::Itertools::collect_vec`.
///
/// The addresses come out in ascending order in chunks of `size` addresses
/// each; the last chunk holds what is left if that is less.  `chunks` panics
/// on a size of zero.
#[verifier::external_body]
fn address_clusters(start: u32, end: u32, size: usize) -> (groups: Vec<Vec<u32>>)
    requires
        size > 0,
    ensures
        group_views(groups@) == clusters(start, end, size as int),
{
    let chunks = (start..=end).chunks(size);
    let groups: Vec<Vec<u32>> = chunks.into_iter().map(|c| c.collect_vec()).collect();
    groups
}

/// The bytes at `addrs` as hexadecimal digits, that of the highest address
/// first.
pub open spec fn cluster_text(chunks: Seq<Chunk>, addrs: Seq<u32>) -> Seq<u8>
    decreases addrs.len(),
{
    if addrs.len() == 0 {
        Seq::empty()
    } else {
        hex2(byte_at(chunks, addrs.last() as int).unwrap()) + cluster_text(chunks, addrs.drop_last())
    }
}

/// The grid of the clusters `groups`: each cluster is followed by a blank, and
/// every fourth cluster, from the first on, begins a new line with its first
/// address and two blanks.
pub open spec fn grid_text(chunks: Seq<Chunk>, groups: Seq<Seq<u32>>) -> Seq<u8>
    decreases groups.len(),
{
    if groups.len() == 0 {
        Seq::empty()
    } else {
        grid_text(chunks, groups.drop_last()) + (if (groups.len() - 1) % (CLUSTERS_PER_LINE as int)
            == 0 {
            "\n".spec_bytes() + hex8(groups.last()[0]) + "  ".spec_bytes()
        } else {
            Seq::empty()
        }) + cluster_text(chunks, groups.last()) + " ".spec_bytes()
    }
}

/// The grid of the bytes at `start ..= end` in clusters of `cluster` bytes.
/// Where the last line is full, or there is none, a newline follows.
pub open spec fn print_text(chunks: Seq<Chunk>, start: u32, end: u32, cluster: int) -> Seq<u8> {
    grid_text(chunks, clusters(start, end, cluster)) + (if clusters(start, end, cluster).len() % (
    CLUSTERS_PER_LINE as nat) == 0 {
        "\n".spec_bytes()
    } else {
        Seq::empty()
    })
}

/// The bytes of a chunk as hexadecimal digits, with a comma and a blank
/// between one byte and the next.
pub open spec fn bytes_text(bytes: Seq<u8>) -> Seq<u8>
    decreases bytes.len(),
{
    if bytes.len() == 0 {
        Seq::empty()
    } else if bytes.len() == 1 {
        hex2(bytes[0])
    } else {
        bytes_text(bytes.drop_last()) + ", ".spec_bytes() + hex2(bytes.last())
    }
}

/// The line of a chunk in the listing.  The closing bracket and the newline
/// follow the last byte: a chunk without bytes has neither.
pub open spec fn chunk_text(c: Chunk) -> Seq<u8> {
    "Addr: 0x".spec_bytes() + hex8(c.addr) + ", Data: [".spec_bytes() + bytes_text(c.bytes) + (
    if c.bytes.len() > 0 {
        "]\n".spec_bytes()
    } else {
        Seq::empty()
    })
}

/// The lines of the chunks.
pub open spec fn chunks_text(chunks: Seq<Chunk>) -> Seq<u8>
    decreases chunks.len(),
{
    if chunks.len() == 0 {
        Seq::empty()
    } else {
        chunks_text(chunks.drop_last()) + chunk_text(chunks.last())
    }
}

/// The listing of an image: the entry descriptor, if there is one, with an
/// empty line behind it, and the lines of the chunks.
pub open spec fn image_text(image: HexImage) -> Seq<u8> {
    (match image.start {
        Some(s) => "Start Addr: CS = 0x".spec_bytes() + hex4(s.cs) + ", IP = 0x".spec_bytes()
            + hex4(s.ip) + "\n\n".spec_bytes(),
        None => Seq::empty(),
    }) + chunks_text(image.chunks)
}

/// Appends the bytes of `s`.
fn push_str(out: &mut Vec<u8>, s: &str)
    ensures
        final(out)@ == old(out)@ + s.spec_bytes(),
{
    out.extend_from_slice(s.as_bytes());
    assert(final(out)@ =~= old(out)@ + s.spec_bytes());
}

impl Data {
    /// The line of the chunk in the listing of an image: its address and its
    /// bytes.
    pub fn pretty_print(&self) -> (text: Vec<u8>)
        ensures
            text@ == chunk_text(self@),
    {
        let mut text: Vec<u8> = Vec::new();
        push_str(&mut text, "Addr: 0x");
        push_hex8(&mut text, self.addr());
        push_str(&mut text, ", Data: [");
        let ghost head = text@;
        let bytes: &[u8] = self.bytes();
        let n: usize = bytes.len();
        let mut i: usize = 0;
        proof {
            assert(bytes@.take(0) =~= Seq::<u8>::empty());
            assert(text@ =~= head + bytes_text(bytes@.take(0)));
        }
        while i < n
            invariant
                i <= n,
                n == bytes@.len(),
                head == "Addr: 0x".spec_bytes() + hex8(self@.addr) + ", Data: [".spec_bytes(),
                text@ == head + bytes_text(bytes@.take(i as int)),
            decreases n - i,
        {
            let ghost so_far = text@;
            proof {
                assert(bytes@.take(i as int + 1).drop_last() =~= bytes@.take(i as int));
                assert(bytes@.take(i as int + 1).last() == bytes@[i as int]);
            }
            if i > 0 {
                push_str(&mut text, ", ");
            }
            push_hex2(&mut text, bytes[i]);
            proof {
                if i == 0 {
                    assert(bytes_text(bytes@.take(0)) =~= Seq::<u8>::empty());
                    assert(bytes@.take(1)[0] == bytes@[0]);
                    assert(text@ =~= head + bytes_text(bytes@.take(1)));
                } else {
                    assert(text@ =~= head + bytes_text(bytes@.take(i as int + 1)));
                }
            }
            i += 1;
        }
        proof {
            assert(bytes@.take(n as int) =~= bytes@);
        }
        if n > 0 {
            push_str(&mut text, "]\n");
        }
        proof {
            assert(text@ =~= chunk_text(self@));
        }
        text
    }
}

impl HexFile {
    /// The listing of the image: the entry descriptor, if there is one, and a
    /// line for each chunk.
    pub fn pretty_print(&self) -> (text: Vec<u8>)
        ensures
            text@ == image_text(self@),
    {
        let mut text: Vec<u8> = Vec::new();
        match self.start() {
            Some(s) => {
                push_str(&mut text, "Start Addr: CS = 0x");
                push_hex4(&mut text, s.cs);
                push_str(&mut text, ", IP = 0x");
                push_hex4(&mut text, s.ip);
                push_str(&mut text, "\n\n");
            },
            None => {},
        }
        let ghost head = text@;
        let data: &[Data] = self.data();
        let n: usize = data.len();
        let mut i: usize = 0;
        proof {
            assert(self@.chunks.take(0) =~= Seq::<Chunk>::empty());
            assert(text@ =~= head + chunks_text(self@.chunks.take(0)));
        }
        while i < n
            invariant
                i <= n,
                n == data@.len(),
                views(data@) == self@.chunks,
                text@ == head + chunks_text(self@.chunks.take(i as int)),
            decreases n - i,
        {
            let ghost so_far = text@;
            let mut line: Vec<u8> = data[i].pretty_print();
            proof {
                assert(self@.chunks.take(i as int + 1).drop_last() =~= self@.chunks.take(i as int));
                assert(self@.chunks.take(i as int + 1).last() == data@[i as int]@);
            }
            text.append(&mut line);
            proof {
                assert(text@ =~= head + chunks_text(self@.chunks.take(i as int + 1)));
            }
            i += 1;
        }
        proof {
            assert(self@.chunks.take(n as int) =~= self@.chunks);
        }
        text
    }

    /// The grid of the bytes at `start ..= end`, in clusters of `cluster`
    /// bytes with the byte of the highest address first, four clusters to a
    /// line.  There is no grid if one of the addresses has no byte.
    pub fn print_bytes(&self, start: u32, end: u32, cluster: usize) -> (text: Option<Vec<u8>>)
        requires
            cluster > 0,
        ensures
            text is Some <==> range_covered(self@.chunks, AddrRange { start, end }),
            text matches Some(t) ==> t@ == print_text(self@.chunks, start, end, cluster as int),
    {
        let ghost chunks = self@.chunks;
        let bytes: Vec<u8> = match self.read_range(AddrRange { start, end }) {
            Some(bytes) => bytes,
            None => {
                return None;
            },
        };
        let groups: Vec<Vec<u32>> = address_clusters(start, end, cluster);
        let ghost all = clusters(start, end, cluster as int);
        proof {
            lemma_clusters(start, end, cluster as int);
        }
        let mut text: Vec<u8> = Vec::new();
        let n: usize = groups.len();
        let mut k: usize = 0;
        proof {
            assert(all.take(0) =~= Seq::<Seq<u32>>::empty());
        }
        while k < n
            invariant
                k <= n,
                n == groups@.len(),
                chunks == self@.chunks,
                all == group_views(groups@),
                all == clusters(start, end, cluster as int),
                range_covered(chunks, AddrRange { start, end }),
                bytes@ == range_bytes(chunks, AddrRange { start, end }),
                forall|g: int| 0 <= g < all.len() ==> 1 <= (#[trigger] all[g]).len(),
                forall|g: int, i: int|
                    0 <= g < all.len() && 0 <= i < all[g].len() ==> start <= (#[trigger] all[g][i])
                        <= end,
                text@ == grid_text(chunks, all.take(k as int)),
            decreases n - k,
        {
            let group: &Vec<u32> = &groups[k];
            let ghost addrs = all[k as int];
            let ghost so_far = text@;
            proof {
                assert(addrs == group@);
                assert(all.take(k as int + 1).drop_last() =~= all.take(k as int));
                assert(all.take(k as int + 1).last() == addrs);
                assert(1 <= addrs.len());
            }
            if k % CLUSTERS_PER_LINE == 0 {
                push_str(&mut text, "\n");
                push_hex8(&mut text, group[0]);
                push_str(&mut text, "  ");
            }
            let ghost lead = text@;
            let mut i: usize = group.len();
            proof {
                assert(addrs.take(addrs.len() as int) =~= addrs);
            }
            while i > 0
                invariant
                    i <= group@.len(),
                    addrs == group@,
                    0 <= k < all.len(),
                    addrs == all[k as int],
                    chunks == self@.chunks,
                    range_covered(chunks, AddrRange { start, end }),
                    bytes@ == range_bytes(chunks, AddrRange { start, end }),
                    forall|j: int| 0 <= j < addrs.len() ==> start <= (#[trigger] addrs[j]) <= end,
                    text@ + cluster_text(chunks, addrs.take(i as int)) == lead + cluster_text(
                        chunks,
                        addrs,
                    ),
                decreases i,
            {
                let ghost before = text@;
                i -= 1;
                let addr: u32 = group[i];
                proof {
                    assert(start <= addrs[i as int] <= end);
                    assert(addrs.take(i as int + 1).drop_last() =~= addrs.take(i as int));
                    assert(addrs.take(i as int + 1).last() == addr);
                }
                push_hex2(&mut text, bytes[(addr - start) as usize]);
                proof {
                    assert(text@ + cluster_text(chunks, addrs.take(i as int)) =~= before
                        + cluster_text(chunks, addrs.take(i as int + 1)));
                }
            }
            proof {
                assert(addrs.take(0) =~= Seq::<u32>::empty());
                assert(text@ =~= lead + cluster_text(chunks, addrs));
            }
            push_str(&mut text, " ");
            proof {
                assert(text@ =~= grid_text(chunks, all.take(k as int + 1)));
            }
            k += 1;
        }
        proof {
            assert(all.take(n as int) =~= all);
        }
        if n % CLUSTERS_PER_LINE == 0 {
            push_str(&mut text, "\n");
        }
        Some(text)
    }
}

} // verus!
