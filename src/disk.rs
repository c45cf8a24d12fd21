use vstd::prelude::*;

use crate::error::DbError;

verus! {

/// The size of a block of the data file, in bytes.
pub const PAGE_SIZE: usize = 4096;

/// Whether every block of `blocks` is exactly one page long.
pub open spec fn blocks_sized(blocks: Seq<Seq<u8>>) -> bool {
    forall|i: int| 0 <= i < blocks.len() ==> (#[trigger] blocks[i]).len() == PAGE_SIZE
}

/// A block of zeros.
pub open spec fn zero_block() -> Seq<u8> {
    Seq::new(PAGE_SIZE as nat, |i: int| 0u8)
}

/// The blocks after writing `data` at block `n`: a block past the end first extends the
/// file with zero blocks, as a write past the end of a file does.
pub open spec fn blocks_after_write(blocks: Seq<Seq<u8>>, n: int, data: Seq<u8>) -> Seq<Seq<u8>> {
    if n < blocks.len() {
        blocks.update(n, data)
    } else {
        (blocks + Seq::new((n - blocks.len()) as nat, |i: int| zero_block())).push(data)
    }
}

/// The blocks that a data file of the bytes `image` holds.
pub open spec fn blocks_of_image(image: Seq<u8>) -> Seq<Seq<u8>> {
    Seq::new(
        image.len() / (PAGE_SIZE as nat),
        |i: int| image.subrange(i * PAGE_SIZE, (i + 1) * PAGE_SIZE),
    )
}

/// Reading a block just written gives the bytes that were written.
pub proof fn lemma_write_then_read(blocks: Seq<Seq<u8>>, n: int, data: Seq<u8>)
    requires
        0 <= n,
    ensures
        n < blocks_after_write(blocks, n, data).len(),
        blocks_after_write(blocks, n, data)[n] == data,
        forall|m: int|
            0 <= m < blocks.len() && m != n ==> #[trigger] blocks_after_write(blocks, n, data)[m]
                == blocks[m],
{
}

/// The data file: a sequence of blocks of `PAGE_SIZE` bytes, indexed from 0, held in
/// memory. The home directory names where the file is kept.
#[derive(Debug)]
pub struct DiskManager {
    home_dir: String,
    blocks: Vec<Vec<u8>>,
}

impl View for DiskManager {
    type V = Seq<Seq<u8>>;

    closed spec fn view(&self) -> Seq<Seq<u8>> {
        self.blocks@.map_values(|b: Vec<u8>| b@)
    }
}

impl DiskManager {
    /// The home directory the data file belongs to.
    pub closed spec fn home(&self) -> Seq<char> {
        self.home_dir@
    }

    /// A manager of the data file under `home_dir`; the file starts empty.
    pub fn new(home_dir: String) -> (r: DiskManager)
        ensures
            r@ == Seq::<Seq<u8>>::empty(),
            r.home() == home_dir@,
    {
        let r = DiskManager { home_dir, blocks: Vec::new() };
        assert(r@ =~= Seq::<Seq<u8>>::empty());
        r
    }

    /// A manager whose data file holds the bytes `image`; fails with `Corruption` where
    /// their length is not a whole number of blocks.
    pub fn from_image(home_dir: String, image: &[u8]) -> (r: Result<DiskManager, DbError>)
        ensures
            r is Ok <==> image@.len() % (PAGE_SIZE as nat) == 0,
            r matches Ok(d) ==> d@ == blocks_of_image(image@) && d.home() == home_dir@
                && blocks_sized(d@),
            r is Err ==> r == Err::<DiskManager, DbError>(DbError::Corruption),
    {
        let len = image.len();
        if len % PAGE_SIZE != 0 {
            return Err(DbError::Corruption);
        }
        let count = len / PAGE_SIZE;
        let mut blocks: Vec<Vec<u8>> = Vec::new();
        let mut i: usize = 0;
        while i < count
            invariant
                len == image@.len(),
                count == len / PAGE_SIZE,
                i <= count,
                blocks@.map_values(|b: Vec<u8>| b@) =~= blocks_of_image(image@).take(i as int),
            decreases count - i,
        {
            assert((i + 1) * PAGE_SIZE <= len) by (nonlinear_arith)
                requires
                    i < count,
                    count == len / 4096,
                    PAGE_SIZE == 4096,
            ;
            let block = vstd::slice::slice_to_vec(
                vstd::slice::slice_subrange(image, i * PAGE_SIZE, (i + 1) * PAGE_SIZE),
            );
            let ghost before = blocks@;
            blocks.push(block);
            assert(blocks@.map_values(|b: Vec<u8>| b@) =~= before.map_values(|b: Vec<u8>| b@).push(
                block@,
            ));
            i = i + 1;
        }
        assert(blocks_of_image(image@).take(count as int) =~= blocks_of_image(image@));
        assert forall|k: int| 0 <= k < count implies (#[trigger] blocks_of_image(image@)[k]).len() == PAGE_SIZE by {
            assert((k + 1) * PAGE_SIZE <= len) by (nonlinear_arith)
                requires
                    0 <= k < count,
                    count == len / 4096,
                    PAGE_SIZE == 4096,
            ;
            assert(k * PAGE_SIZE + PAGE_SIZE == (k + 1) * PAGE_SIZE) by (nonlinear_arith);
        }
        Ok(DiskManager { home_dir, blocks })
    }

    /// The bytes of the whole data file.
    pub fn image(&self) -> (r: Vec<u8>)
        ensures
            r@ == self@.flatten_alt(),
    {
        let mut r: Vec<u8> = Vec::new();
        let mut i: usize = 0;
        while i < self.blocks.len()
            invariant
                i <= self.blocks@.len(),
                r@ == self@.take(i as int).flatten_alt(),
            decreases self.blocks@.len() - i,
        {
            r.extend_from_slice(self.blocks[i].as_slice());
            assert(self@.take(i + 1).drop_last() =~= self@.take(i as int));
            assert(r@ =~= self@.take(i + 1).flatten_alt());
            i = i + 1;
        }
        assert(self@.take(self@.len() as int) =~= self@);
        r
    }

    /// The home directory the data file belongs to.
    pub fn home_dir(&self) -> (r: &String)
        ensures
            r@ == self.home(),
    {
        &self.home_dir
    }

    /// The number of blocks in the data file.
    pub fn block_count(&self) -> (r: usize)
        ensures
            r == self@.len(),
    {
        self.blocks.len()
    }

    /// Empties the data file.
    pub fn init_data_file(&mut self)
        ensures
            final(self)@ == Seq::<Seq<u8>>::empty(),
            final(self).home() == old(self).home(),
    {
        self.blocks = Vec::new();
        assert(self@ =~= Seq::<Seq<u8>>::empty());
    }

    /// Writes one page at `block_number`; fails with `Io`, changing nothing, where
    /// `data` is not exactly one page long.
    pub fn write_page(&mut self, block_number: usize, data: &[u8]) -> (r: Result<(), DbError>)
        ensures
            r is Ok <==> data@.len() == PAGE_SIZE,
            r is Ok ==> final(self)@ == blocks_after_write(old(self)@, block_number as int, data@),
            r is Err ==> final(self)@ == old(self)@ && r == Err::<(), DbError>(DbError::Io),
            final(self).home() == old(self).home(),
    {
        if data.len() != PAGE_SIZE {
            return Err(DbError::Io);
        }
        let ghost before = self@;
        while self.blocks.len() < block_number
            invariant
                before.len() <= block_number || self@ == before,
                self.home() == old(self).home(),
                self@.len() >= before.len(),
                self@.len() <= block_number || self@ == before,
                self@ =~= before + Seq::new((self@.len() - before.len()) as nat, |i: int| zero_block()),
            decreases block_number - self.blocks@.len(),
        {
            let mut zeros: Vec<u8> = Vec::new();
            while zeros.len() < PAGE_SIZE
                invariant
                    zeros@.len() <= PAGE_SIZE,
                    zeros@ =~= Seq::new(zeros@.len(), |i: int| 0u8),
                decreases PAGE_SIZE - zeros@.len(),
            {
                zeros.push(0u8);
            }
            assert(zeros@ =~= zero_block());
            let ghost prev = self@;
            self.blocks.push(zeros);
            assert(self@ =~= prev.push(zero_block()));
        }
        let page = vstd::slice::slice_to_vec(data);
        if block_number < self.blocks.len() {
            let ghost prev = self@;
            self.blocks.set(block_number, page);
            assert(self@ =~= prev.update(block_number as int, data@));
        } else {
            let ghost prev = self@;
            self.blocks.push(page);
            assert(self@ =~= prev.push(data@));
        }
        assert(final(self)@ =~= blocks_after_write(before, block_number as int, data@));
        Ok(())
    }

    /// Appends one page at the end of the data file and returns its block number; fails
    /// with `Io`, changing nothing, where `data` is not exactly one page long.
    pub fn write_new_page(&mut self, data: &[u8]) -> (r: Result<usize, DbError>)
        ensures
            r is Ok <==> data@.len() == PAGE_SIZE,
            r matches Ok(n) ==> n == old(self)@.len() && final(self)@ == old(self)@.push(data@),
            r is Err ==> final(self)@ == old(self)@ && r == Err::<usize, DbError>(DbError::Io),
            final(self).home() == old(self).home(),
    {
        let block_number = self.blocks.len();
        match self.write_page(block_number, data) {
            Ok(()) => {
                assert(Seq::new(0, |i: int| zero_block()) =~= Seq::<Seq<u8>>::empty());
                assert(old(self)@ + Seq::new(0, |i: int| zero_block()) =~= old(self)@);
                Ok(block_number)
            },
            Err(e) => Err(e),
        }
    }

    /// Reads the page at `block_number`; fails with `Io` past the end of the data file.
    pub fn read_page(&self, block_number: usize) -> (r: Result<Vec<u8>, DbError>)
        ensures
            r is Ok <==> block_number < self@.len(),
            r matches Ok(b) ==> b@ == self@[block_number as int],
            r is Err ==> r == Err::<Vec<u8>, DbError>(DbError::Io),
    {
        if block_number >= self.blocks.len() {
            return Err(DbError::Io);
        }
        Ok(vstd::slice::slice_to_vec(self.blocks[block_number].as_slice()))
    }
}

} // verus!
