use vstd::bytes::*;
use vstd::prelude::*;
use vstd::utf8::*;

use crate::byte_store::ByteStore;
use crate::error::PasteError;
use crate::layout::{
    after_create, after_delete, after_update, has_room, lemma_after_create, lemma_after_delete,
    lemma_after_update, counter_of, empty_store, encode_slot, lemma_empty_store, lemma_slot_order,
    lemma_slot_start_nonneg, lookup, magic, slot_bytes, slot_start, well_formed, SlotState,
    COUNTER_OFFSET, RECORDS_OFFSET, SLOT_BODY, SLOT_LEN,
};
use crate::record::{
    content_fits, copy_range, lemma_encode_utf8_empty, push_all, Paste, PasteModel, MAX_RECORD_LEN,
};

verus! {

/// What `str::trim` gives for some text: the text without its leading and
/// trailing white space.
pub uninterp spec fn trimmed_of(s: Seq<char>) -> Seq<char>;

/// Relies on `str::trim`: the result is a piece of the argument, and depends
/// on the argument's characters alone.
#[verifier::external_body]
fn trim_whitespace(s: &str) -> (r: &str)
    ensures
        r@ == trimmed_of(s@),
        r@.len() <= s@.len(),
{
    s.trim()
}

/// The values of a sequence of records.
pub open spec fn models(v: Seq<Paste>) -> Seq<PasteModel> {
    v.map_values(|p: Paste| p@)
}

/// The records held under the ids below `n`, in ascending order of id, or
/// `None` where one of them is corrupt.
pub open spec fn listing(b: Seq<u8>, n: nat) -> Option<Seq<PasteModel>>
    decreases n,
{
    if n == 0 {
        Some(Seq::empty())
    } else {
        match listing(b, (n - 1) as nat) {
            None => None,
            Some(s) => match lookup(b, (n - 1) as u64) {
                SlotState::Empty => Some(s),
                SlotState::Corrupt => None,
                SlotState::Full(p) => Some(s.push(p)),
            },
        }
    }
}

/// Every record of a store in ascending order of id, or `None` where one of
/// them is corrupt.
pub open spec fn all_pastes(b: Seq<u8>) -> Option<Seq<PasteModel>> {
    listing(b, counter_of(b) as nat)
}

/// Page `page` (counted from one) of `s`, `per_page` records to a page.
pub open spec fn page_of(s: Seq<PasteModel>, page: u64, per_page: u64) -> Seq<PasteModel> {
    let skip = (page - 1) * per_page;
    if page == 0 || per_page == 0 || skip >= s.len() {
        Seq::empty()
    } else if skip + per_page >= s.len() {
        s.subrange(skip, s.len() as int)
    } else {
        s.subrange(skip, skip + per_page)
    }
}

/// `n` occurs in `h` as a contiguous piece.
pub open spec fn contains_seq(h: Seq<u8>, n: Seq<u8>) -> bool {
    exists|i: int| 0 <= i && i + n.len() <= h.len() && #[trigger] h.subrange(i, i + n.len()) == n
}

/// The content of a record holds the keyword, byte for byte.
pub open spec fn paste_matches(p: PasteModel, keyword: Seq<char>) -> bool {
    contains_seq(encode_utf8(p.content), encode_utf8(keyword))
}

/// The records of `s` whose content holds the keyword, in their order in `s`.
pub open spec fn search_of(s: Seq<PasteModel>, keyword: Seq<char>) -> Seq<PasteModel>
    decreases s.len(),
{
    if s.len() == 0 {
        Seq::empty()
    } else if paste_matches(s.last(), keyword) {
        search_of(s.drop_last(), keyword).push(s.last())
    } else {
        search_of(s.drop_last(), keyword)
    }
}

/// Once a listing meets a corrupt record it stays `None`.
proof fn lemma_listing_stays_none(b: Seq<u8>, n: nat, m: nat)
    requires
        n <= m,
        listing(b, n) is None,
    ensures
        listing(b, m) is None,
    decreases m - n,
{
    if n < m {
        lemma_listing_stays_none(b, n, (m - 1) as nat);
    }
}

/// Whether `n` stands in `h` at position `i`.
fn matches_at(h: &[u8], n: &[u8], i: usize) -> (r: bool)
    requires
        i + n@.len() <= h@.len(),
    ensures
        r == (h@.subrange(i as int, i + n@.len()) == n@),
{
    let hl = h.len();
    let mut j: usize = 0;
    while j < n.len()
        invariant
            hl == h@.len(),
            i + n@.len() <= h@.len(),
            j <= n@.len(),
            forall|k: int| 0 <= k < j ==> h@[i + k] == n@[k],
        decreases n@.len() - j,
    {
        if h[i + j] != n[j] {
            assert(h@.subrange(i as int, i + n@.len())[j as int] != n@[j as int]);
            return false;
        }
        j = j + 1;
    }
    assert(h@.subrange(i as int, i + n@.len()) =~= n@);
    true
}

/// Whether `n` occurs in `h` as a contiguous piece.
pub fn bytes_contain(h: &[u8], n: &[u8]) -> (r: bool)
    ensures
        r == contains_seq(h@, n@),
{
    if n.len() > h.len() {
        return false;
    }
    let last = h.len() - n.len();
    let mut i: usize = 0;
    loop
        invariant
            i <= last,
            last == h@.len() - n@.len(),
            n@.len() <= h@.len(),
            forall|k: int| 0 <= k < i ==> #[trigger] h@.subrange(k, k + n@.len()) != n@,
        decreases last - i,
    {
        if matches_at(h, n, i) {
            return true;
        }
        if i == last {
            return false;
        }
        i = i + 1;
    }
}

/// Whether the content of a record holds the keyword, byte for byte.
pub fn content_contains(p: &Paste, keyword: &str) -> (r: bool)
    ensures
        r == paste_matches(p@, keyword@),
{
    bytes_contain(p.content.as_str().as_bytes(), keyword.as_bytes())
}

/// The slot that holds an encoded record.
fn make_slot(rec: &Vec<u8>) -> (r: Vec<u8>)
    requires
        rec@.len() <= MAX_RECORD_LEN,
    ensures
        r@ == encode_slot(rec@),
        r@.len() == SLOT_LEN,
{
    let mut s: Vec<u8> = Vec::new();
    s.push(1u8);
    let lb = u16_to_le_bytes(rec.len() as u16);
    push_all(&mut s, lb.as_slice());
    push_all(&mut s, rec.as_slice());
    let ghost head = s@;
    let mut i: usize = rec.len();
    while i < MAX_RECORD_LEN
        invariant
            rec@.len() <= i <= MAX_RECORD_LEN,
            s@ == head + Seq::new((i - rec@.len()) as nat, |k: int| 0u8),
        decreases MAX_RECORD_LEN - i,
    {
        s.push(0u8);
        i = i + 1;
        assert(s@ =~= head + Seq::new((i - rec@.len()) as nat, |k: int| 0u8));
    }
    assert(s@ =~= encode_slot(rec@));
    s
}

/// A paste store: every record and the id counter, laid out in one byte
/// store.
pub struct PasteStore {
    store: ByteStore,
}

impl PasteStore {
    /// The bytes that hold the store.
    pub closed spec fn bytes(&self) -> Seq<u8> {
        self.store@
    }

    /// The bytes hold a store.
    pub open spec fn wf(&self) -> bool {
        well_formed(self.bytes())
    }

    /// A store with no record, whose first id will be zero.
    pub fn new() -> (r: PasteStore)
        ensures
            r.wf(),
            r.bytes() == empty_store(),
            counter_of(r.bytes()) == 0,
            forall|k: u64| #[trigger] lookup(r.bytes(), k) == SlotState::Empty,
    {
        let mut bytes: Vec<u8> = Vec::new();
        bytes.push(0x50u8);
        bytes.push(0x41u8);
        bytes.push(0x53u8);
        bytes.push(0x54u8);
        let zero = u64_to_le_bytes(0);
        push_all(&mut bytes, zero.as_slice());
        proof {
            lemma_empty_store();
            assert(bytes@ =~= empty_store());
        }
        PasteStore { store: ByteStore::from_vec(bytes) }
    }

    /// Reattaches to the bytes of a store, as after a restart; fails with
    /// `BadLayout` where they do not hold one.
    pub fn from_bytes(bytes: Vec<u8>) -> (r: Result<PasteStore, PasteError>)
        ensures
            r is Ok <==> well_formed(bytes@),
            r matches Ok(s) ==> s.bytes() == bytes@,
            r is Err ==> r == Err::<PasteStore, PasteError>(PasteError::BadLayout),
    {
        let n = bytes.len();
        if n < RECORDS_OFFSET {
            return Err(PasteError::BadLayout);
        }
        let head = copy_range(bytes.as_slice(), 0, COUNTER_OFFSET);
        if head[0] != 0x50u8 || head[1] != 0x41u8 || head[2] != 0x53u8 || head[3] != 0x54u8 {
            proof {
                assert(head@ != magic()) by {
                    if head@ == magic() {
                        assert(head@[0] == magic()[0]);
                        assert(head@[1] == magic()[1]);
                        assert(head@[2] == magic()[2]);
                        assert(head@[3] == magic()[3]);
                    }
                }
            }
            return Err(PasteError::BadLayout);
        }
        assert(head@ =~= magic());
        let cb = copy_range(bytes.as_slice(), COUNTER_OFFSET, RECORDS_OFFSET);
        let c = u64_from_le_bytes(cb.as_slice());
        let expected: u128 = RECORDS_OFFSET as u128 + (c as u128) * (SLOT_LEN as u128);
        if expected != n as u128 {
            return Err(PasteError::BadLayout);
        }
        Ok(PasteStore { store: ByteStore::from_vec(bytes) })
    }

    /// Opens the store that `bytes` hold, or makes a new one where they are
    /// empty, so that opening the bytes of a store again finds every record
    /// it held. Fails with `BadLayout` where non-empty bytes hold no store.
    pub fn open_or_init(bytes: Vec<u8>) -> (r: Result<PasteStore, PasteError>)
        ensures
            bytes@.len() == 0 ==> (r matches Ok(s) && s.bytes() == empty_store()),
            bytes@.len() > 0 ==> (r is Ok <==> well_formed(bytes@)),
            bytes@.len() > 0 ==> (r matches Ok(s) ==> s.bytes() == bytes@),
            r is Err ==> r == Err::<PasteStore, PasteError>(PasteError::BadLayout),
    {
        if bytes.len() == 0 {
            Ok(PasteStore::new())
        } else {
            PasteStore::from_bytes(bytes)
        }
    }

    /// A copy of the bytes that hold the store.
    pub fn to_bytes(&self) -> (r: Vec<u8>)
        ensures
            r@ == self.bytes(),
    {
        self.store.to_vec()
    }

    /// The value of the id counter: the id that the next record will get.
    pub fn counter(&self) -> (r: u64)
        requires
            self.wf(),
        ensures
            r == counter_of(self.bytes()),
    {
        let cb = self.store.read(COUNTER_OFFSET, RECORDS_OFFSET - COUNTER_OFFSET);
        u64_from_le_bytes(cb.as_slice())
    }

    /// Where the slot of id `k` starts.
    fn slot_offset(&self, k: u64) -> (r: usize)
        requires
            self.wf(),
            k < counter_of(self.bytes()),
        ensures
            r == slot_start(k as int),
            r + SLOT_LEN <= self.bytes().len(),
    {
        let n = self.store.len();
        proof {
            lemma_slot_order(k as int, counter_of(self.bytes()) as int);
            lemma_slot_start_nonneg(k as int);
        }
        RECORDS_OFFSET + (k as usize) * SLOT_LEN
    }

    /// The record stored under `id`; fails with `NotFound(id)` where there is
    /// none and with `CorruptRecord(id)` where its bytes do not decode.
    pub fn get_paste(&self, id: u64) -> (r: Result<Paste, PasteError>)
        requires
            self.wf(),
        ensures
            match lookup(self.bytes(), id) {
                SlotState::Empty => r == Err::<Paste, PasteError>(PasteError::NotFound(id)),
                SlotState::Corrupt => r == Err::<Paste, PasteError>(PasteError::CorruptRecord(id)),
                SlotState::Full(p) => r matches Ok(q) && q@ == p,
            },
    {
        let c = self.counter();
        if id >= c {
            return Err(PasteError::not_found(id));
        }
        let off = self.slot_offset(id);
        let s = self.store.read(off, SLOT_LEN);
        assert(s@ == slot_bytes(self.bytes(), id as int));
        if s[0] == 0 {
            return Err(PasteError::not_found(id));
        }
        let lb = copy_range(s.as_slice(), 1, SLOT_BODY);
        let len = u16_from_le_bytes(lb.as_slice()) as usize;
        if len > MAX_RECORD_LEN {
            return Err(PasteError::CorruptRecord(id));
        }
        let rec = copy_range(s.as_slice(), SLOT_BODY, SLOT_BODY + len);
        match Paste::decode(rec.as_slice()) {
            Some(p) => {
                if p.id == id {
                    Ok(p)
                } else {
                    Err(PasteError::CorruptRecord(id))
                }
            },
            None => Err(PasteError::CorruptRecord(id)),
        }
    }

    /// Whether one more id can be minted and its slot held.
    fn room_left(&self) -> (r: bool)
        requires
            self.wf(),
        ensures
            r == has_room(self.bytes()),
    {
        let c = self.counter();
        if c == u64::MAX {
            return false;
        }
        let next: u128 = c as u128 + 1;
        assert(next * 1027 <= 0x1_0000_0000_0000_0000u128 * 1027) by (nonlinear_arith)
            requires
                next <= 0x1_0000_0000_0000_0000u128,
        ;
        let end: u128 = RECORDS_OFFSET as u128 + next * (SLOT_LEN as u128);
        end <= usize::MAX as u128
    }

    /// Adds a record with `content`, stamped `now`, under the next id, and
    /// gives that id. Fails with `InvalidInput` where `blank` holds or the
    /// record would not fit in a slot, and with `StoreFull` where no id or
    /// space is left; the store is then unchanged.
    pub fn create_unless_blank(&mut self, content: String, blank: bool, now: u64) -> (r: Result<
        u64,
        PasteError,
    >)
        requires
            old(self).wf(),
        ensures
            final(self).wf(),
            blank || !content_fits(content@) ==> (r matches Err(PasteError::InvalidInput(_))
                && final(self).bytes() == old(self).bytes()),
            !blank && content_fits(content@) && !has_room(old(self).bytes()) ==> (r == Err::<
                u64,
                PasteError,
            >(PasteError::StoreFull) && final(self).bytes() == old(self).bytes()),
            !blank && content_fits(content@) && has_room(old(self).bytes()) ==> ({
                let id = counter_of(old(self).bytes());
                &&& r == Ok::<u64, PasteError>(id)
                &&& final(self).bytes() == after_create(
                    old(self).bytes(),
                    PasteModel { id, content: content@, timestamp: now },
                )
            }),
    {
        if blank {
            return Err(PasteError::invalid_input("Content cannot be empty"));
        }
        let c = self.counter();
        let paste = Paste { id: c, content, timestamp: now };
        let rec = match paste.encode() {
            Ok(rec) => rec,
            Err(_) => return Err(PasteError::invalid_input("Content is too long")),
        };
        if !self.room_left() {
            return Err(PasteError::StoreFull);
        }
        let slot = make_slot(&rec);
        let ghost before = self.bytes();
        self.store.append(slot.as_slice());
        let cb = u64_to_le_bytes(c + 1);
        self.store.write(COUNTER_OFFSET, cb.as_slice());
        proof {
            assert(self.bytes() =~= after_create(before, paste@));
            lemma_after_create(before, paste@);
        }
        Ok(c)
    }

    /// Adds a record with `content`, stamped `now`, under the next id, and
    /// gives that id. Content that is empty once white space is trimmed, or
    /// too long for a record, is refused with `InvalidInput`.
    pub fn create_paste(&mut self, content: String, now: u64) -> (r: Result<u64, PasteError>)
        requires
            old(self).wf(),
        ensures
            final(self).wf(),
            content@.len() == 0 ==> (r matches Err(PasteError::InvalidInput(_))
                && final(self).bytes() == old(self).bytes()),
            ({
                let blank = trimmed_of(content@).len() == 0;
                &&& blank || !content_fits(content@) ==> (r matches Err(PasteError::InvalidInput(_))
                    && final(self).bytes() == old(self).bytes())
                &&& !blank && content_fits(content@) && !has_room(old(self).bytes()) ==> (r
                    == Err::<u64, PasteError>(PasteError::StoreFull) && final(self).bytes() == old(
                    self,
                ).bytes())
                &&& !blank && content_fits(content@) && has_room(old(self).bytes()) ==> ({
                    let id = counter_of(old(self).bytes());
                    &&& r == Ok::<u64, PasteError>(id)
                    &&& final(self).bytes() == after_create(
                        old(self).bytes(),
                        PasteModel { id, content: content@, timestamp: now },
                    )
                })
            }),
    {
        let trimmed = trim_whitespace(content.as_str());
        let blank = trimmed.as_bytes().len() == 0;
        proof {
            lemma_encode_utf8_empty(trimmed@);
        }
        self.create_unless_blank(content, blank, now)
    }

    /// Replaces the content of the record `id` and stamps it `now`, or keeps
    /// its stamp where that is later; gives the new record. Fails with
    /// `InvalidInput` for empty or too long content, `NotFound(id)` where no
    /// record is stored under `id`, `CorruptRecord(id)` where it does not
    /// decode; the store is then unchanged.
    pub fn update_paste(&mut self, id: u64, new_content: String, now: u64) -> (r: Result<
        Paste,
        PasteError,
    >)
        requires
            old(self).wf(),
        ensures
            final(self).wf(),
            new_content@.len() == 0 ==> (r matches Err(PasteError::InvalidInput(_))
                && final(self).bytes() == old(self).bytes()),
            new_content@.len() > 0 ==> match lookup(old(self).bytes(), id) {
                SlotState::Empty => r == Err::<Paste, PasteError>(PasteError::NotFound(id))
                    && final(self).bytes() == old(self).bytes(),
                SlotState::Corrupt => r == Err::<Paste, PasteError>(PasteError::CorruptRecord(id))
                    && final(self).bytes() == old(self).bytes(),
                SlotState::Full(q) => {
                    let p = PasteModel {
                        id,
                        content: new_content@,
                        timestamp: if now >= q.timestamp {
                            now
                        } else {
                            q.timestamp
                        },
                    };
                    if content_fits(new_content@) {
                        &&& r matches Ok(x) && x@ == p
                        &&& final(self).bytes() == after_update(old(self).bytes(), id, p)
                    } else {
                        &&& r matches Err(PasteError::InvalidInput(_))
                        &&& final(self).bytes() == old(self).bytes()
                    }
                },
            },
    {
        let bl = new_content.as_str().as_bytes().len();
        proof {
            lemma_encode_utf8_empty(new_content@);
        }
        if bl == 0 {
            return Err(PasteError::invalid_input("Content cannot be empty"));
        }
        let current = match self.get_paste(id) {
            Ok(p) => p,
            Err(e) => return Err(e),
        };
        let timestamp = if now >= current.timestamp {
            now
        } else {
            current.timestamp
        };
        let paste = Paste { id, content: new_content, timestamp };
        let rec = match paste.encode() {
            Ok(rec) => rec,
            Err(_) => return Err(PasteError::invalid_input("Content is too long")),
        };
        let slot = make_slot(&rec);
        let off = self.slot_offset(id);
        let ghost before = self.bytes();
        self.store.write(off, slot.as_slice());
        proof {
            assert(self.bytes() =~= after_update(before, id, paste@));
            lemma_after_update(before, id, paste@);
        }
        Ok(paste)
    }

    /// Removes the record `id` and gives it back. Fails with `NotFound(id)`
    /// where no record is stored under `id`, and with `CorruptRecord(id)`
    /// where it does not decode; the store is then unchanged.
    pub fn delete_paste(&mut self, id: u64) -> (r: Result<Paste, PasteError>)
        requires
            old(self).wf(),
        ensures
            final(self).wf(),
            match lookup(old(self).bytes(), id) {
                SlotState::Empty => r == Err::<Paste, PasteError>(PasteError::NotFound(id))
                    && final(self).bytes() == old(self).bytes(),
                SlotState::Corrupt => r == Err::<Paste, PasteError>(PasteError::CorruptRecord(id))
                    && final(self).bytes() == old(self).bytes(),
                SlotState::Full(q) => {
                    &&& r matches Ok(x) && x@ == q
                    &&& final(self).bytes() == after_delete(old(self).bytes(), id)
                },
            },
    {
        let current = match self.get_paste(id) {
            Ok(p) => p,
            Err(e) => return Err(e),
        };
        let off = self.slot_offset(id);
        let mut zero: Vec<u8> = Vec::new();
        zero.push(0u8);
        let ghost before = self.bytes();
        self.store.write(off, zero.as_slice());
        proof {
            assert(self.bytes() =~= after_delete(before, id));
            lemma_after_delete(before, id);
        }
        Ok(current)
    }

    /// Every record, in ascending order of id; fails with
    /// `CorruptRecord(k)` where the record `k` does not decode.
    pub fn list_all_pastes(&self) -> (r: Result<Vec<Paste>, PasteError>)
        requires
            self.wf(),
        ensures
            match all_pastes(self.bytes()) {
                Some(s) => r matches Ok(v) && models(v@) == s,
                None => r matches Err(PasteError::CorruptRecord(k)) && lookup(self.bytes(), k)
                    == SlotState::Corrupt,
            },
    {
        let c = self.counter();
        let mut out: Vec<Paste> = Vec::new();
        let mut k: u64 = 0;
        while k < c
            invariant
                self.wf(),
                c == counter_of(self.bytes()),
                k <= c,
                listing(self.bytes(), k as nat) == Some(models(out@)),
            decreases c - k,
        {
            let ghost before = out@;
            match self.get_paste(k) {
                Ok(p) => {
                    out.push(p);
                    assert(models(out@) =~= models(before).push(p@));
                },
                Err(PasteError::NotFound(_)) => {},
                Err(e) => {
                    proof {
                        lemma_listing_stays_none(self.bytes(), (k + 1) as nat, c as nat);
                    }
                    return Err(e);
                },
            }
            k = k + 1;
        }
        Ok(out)
    }

    /// Page `page` of the records in ascending order of id, `per_page` to a
    /// page; `page` is one and `per_page` five where not given. A page of
    /// zero, zero records to a page, or a page past the end give no records.
    pub fn list_pastes(&self, page: Option<u64>, per_page: Option<u64>) -> (r: Result<
        Vec<Paste>,
        PasteError,
    >)
        requires
            self.wf(),
        ensures
            ({
                let pg = match page {
                    Some(p) => p,
                    None => 1,
                };
                let pp = match per_page {
                    Some(p) => p,
                    None => 5,
                };
                if pg == 0 || pp == 0 {
                    r matches Ok(v) && v@.len() == 0
                } else {
                    match all_pastes(self.bytes()) {
                        Some(s) => r matches Ok(v) && models(v@) == page_of(s, pg, pp),
                        None => r matches Err(PasteError::CorruptRecord(k)) && lookup(
                            self.bytes(),
                            k,
                        ) == SlotState::Corrupt,
                    }
                }
            }),
    {
        let pg = match page {
            Some(p) => p,
            None => 1,
        };
        let pp = match per_page {
            Some(p) => p,
            None => 5,
        };
        if pg == 0 || pp == 0 {
            return Ok(Vec::new());
        }
        let all = match self.list_all_pastes() {
            Ok(v) => v,
            Err(e) => return Err(e),
        };
        let ghost s = models(all@);
        let n = all.len();
        let a: u128 = pg as u128 - 1;
        let b: u128 = pp as u128;
        assert(a * b <= 0xFFFF_FFFF_FFFF_FFFFu128 * 0xFFFF_FFFF_FFFF_FFFFu128) by (nonlinear_arith)
            requires
                a <= 0xFFFF_FFFF_FFFF_FFFFu128,
                b <= 0xFFFF_FFFF_FFFF_FFFFu128,
        ;
        let skip: u128 = a * b;
        let mut out: Vec<Paste> = Vec::new();
        if skip >= n as u128 {
            assert(page_of(s, pg, pp) =~= Seq::<PasteModel>::empty());
            return Ok(out);
        }
        let start = skip as usize;
        let end: usize = if skip + pp as u128 >= n as u128 {
            n
        } else {
            (skip + pp as u128) as usize
        };
        let mut i: usize = start;
        while i < end
            invariant
                s == models(all@),
                start <= i <= end <= all@.len(),
                models(out@) == s.subrange(start as int, i as int),
            decreases end - i,
        {
            let ghost before = out@;
            let p = all[i].duplicate();
            out.push(p);
            assert(models(out@) =~= models(before).push(p@));
            assert(models(out@) =~= s.subrange(start as int, i + 1));
            i = i + 1;
        }
        assert(page_of(s, pg, pp) =~= s.subrange(start as int, end as int));
        Ok(out)
    }

    /// The records whose content holds `keyword`, byte for byte, in
    /// ascending order of id; none for an empty keyword.
    pub fn search_pastes(&self, keyword: &str) -> (r: Result<Vec<Paste>, PasteError>)
        requires
            self.wf(),
        ensures
            keyword@.len() == 0 ==> (r matches Ok(v) && v@.len() == 0),
            keyword@.len() > 0 ==> match all_pastes(self.bytes()) {
                Some(s) => r matches Ok(v) && models(v@) == search_of(s, keyword@),
                None => r matches Err(PasteError::CorruptRecord(k)) && lookup(self.bytes(), k)
                    == SlotState::Corrupt,
            },
    {
        proof {
            lemma_encode_utf8_empty(keyword@);
        }
        if keyword.as_bytes().len() == 0 {
            return Ok(Vec::new());
        }
        let all = match self.list_all_pastes() {
            Ok(v) => v,
            Err(e) => return Err(e),
        };
        let ghost s = models(all@);
        let mut out: Vec<Paste> = Vec::new();
        let mut i: usize = 0;
        while i < all.len()
            invariant
                s == models(all@),
                i <= all@.len(),
                models(out@) == search_of(s.subrange(0, i as int), keyword@),
            decreases all@.len() - i,
        {
            let ghost before = out@;
            assert(s.subrange(0, i + 1).drop_last() =~= s.subrange(0, i as int));
            if content_contains(&all[i], keyword) {
                out.push(all[i].duplicate());
                assert(models(out@) =~= models(before).push(s[i as int]));
            }
            i = i + 1;
        }
        assert(s.subrange(0, all@.len() as int) =~= s);
        Ok(out)
    }
}

} // verus!
