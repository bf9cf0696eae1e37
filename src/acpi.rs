//! Finding and checking the ACPI root system description pointer in a window
//! of firmware memory that the caller has read.
use vstd::prelude::*;
use vstd::slice::slice_subrange;

verus! {

/// Bytes of the root system description pointer, revision 2.
pub const ROOT_DESCRIPTION_LEN: usize = 36;

/// Bytes that the revision 1 checksum covers.
pub const VERSION_ONE_LEN: usize = 20;

/// Bytes that revision 2 added.
pub const VERSION_TWO_EXTRA_LEN: usize = 14;

/// Where the revision byte lies in the pointer.
pub const REVISION_OFFSET: usize = 15;

/// The sum of the bytes.
pub open spec fn byte_sum(s: Seq<u8>) -> int
    decreases s.len(),
{
    if s.len() == 0 {
        0
    } else {
        byte_sum(s.drop_last()) + s.last()
    }
}

/// Whether `data` occurs in `region` at offset `i`.
pub open spec fn occurs_at(region: Seq<u8>, data: Seq<u8>, i: int) -> bool {
    &&& 0 <= i
    &&& i + data.len() <= region.len()
    &&& region.subrange(i, i + data.len()) == data
}

/// The signature that starts the root system description pointer.
pub open spec fn root_signature() -> Seq<u8> {
    seq![0x52u8, 0x53u8, 0x44u8, 0x20u8, 0x50u8, 0x54u8, 0x52u8, 0x20u8]
}

/// The checksum rule of a root system description pointer that starts `t`:
/// its first 20 bytes sum to 0 modulo 256, and for revision 2 so do the 14
/// bytes after them.
pub open spec fn checksum_valid(t: Seq<u8>) -> bool {
    &&& byte_sum(t.subrange(0, 20)) % 256 == 0
    &&& t[15] == 2 ==> byte_sum(t.subrange(20, 34)) % 256 == 0
}

/// Sums a region of bytes, modulo 256: the rule of ACPI's checksums.
pub fn sum(region: &[u8]) -> (r: u8)
    ensures
        r == byte_sum(region@) % 256,
{
    let mut total: u8 = 0;
    let mut i: usize = 0;
    while i < region.len()
        invariant
            i <= region@.len(),
            total == byte_sum(region@.take(i as int)) % 256,
        decreases region@.len() - i,
    {
        let byte = region[i];
        proof {
            assert(region@.take(i + 1).drop_last() == region@.take(i as int));
        }
        total = total.wrapping_add(byte);
        i = i + 1;
    }
    assert(region@.take(i as int) == region@);
    total
}

/// The first offset at which `data` occurs in `region`.
pub fn search(region: &[u8], data: &[u8]) -> (r: Option<usize>)
    ensures
        match r {
            Some(i) => occurs_at(region@, data@, i as int) && forall|j: int|
                0 <= j < i ==> !occurs_at(region@, data@, j),
            None => forall|j: int| !occurs_at(region@, data@, j),
        },
{
    let n = region.len();
    if data.len() > n {
        return None;
    }
    let last = n - data.len();
    let mut i: usize = 0;
    loop
        invariant
            n == region@.len(),
            last == region@.len() - data@.len(),
            i <= last,
            forall|j: int| 0 <= j < i ==> !occurs_at(region@, data@, j),
        ensures
            forall|j: int| 0 <= j <= last ==> !occurs_at(region@, data@, j),
        decreases last - i,
    {
        let mut k: usize = 0;
        let mut same = true;
        while k < data.len()
            invariant
                n == region@.len(),
                i <= last,
                last == region@.len() - data@.len(),
                k <= data@.len(),
                same == (forall|m: int| 0 <= m < k ==> region@[i + m] == data@[m]),
            decreases data@.len() - k,
        {
            if region[i + k] != data[k] {
                same = false;
            }
            k = k + 1;
        }
        if same {
            assert(region@.subrange(i as int, i + data@.len()) =~= data@);
            return Some(i);
        }
        assert(!occurs_at(region@, data@, i as int)) by {
            if occurs_at(region@, data@, i as int) {
                assert forall|m: int| 0 <= m < data@.len() implies region@[i + m] == data@[m] by {
                    assert(region@.subrange(i as int, i + data@.len())[m] == data@[m]);
                }
            }
        }
        if i == last {
            break;
        }
        i = i + 1;
    }
    None
}

/// Whether the root system description pointer that starts `table` passes
/// its checksums.
pub fn is_checksum_valid(table: &[u8]) -> (r: bool)
    requires
        table@.len() >= ROOT_DESCRIPTION_LEN,
    ensures
        r == checksum_valid(table@),
{
    let version_one = slice_subrange(table, 0, VERSION_ONE_LEN);
    let mut res = sum(version_one) == 0;
    if table[REVISION_OFFSET] == 2 {
        let version_two = slice_subrange(table, VERSION_ONE_LEN, VERSION_ONE_LEN + VERSION_TWO_EXTRA_LEN);
        res = res && sum(version_two) == 0;
    }
    res
}

/// Where the root system description pointer was found.
pub struct ACPI {
    root_system_description: usize,
}

impl ACPI {
    /// The address of the root system description pointer.
    pub closed spec fn root(&self) -> usize {
        self.root_system_description
    }

    /// Finds the first root system description pointer in `region`, the
    /// bytes of firmware memory from `region_address` on. Gives `None` when
    /// there is none, when it does not fit in the region, or when its
    /// checksum fails.
    pub fn new(region: &[u8], region_address: usize) -> (r: Option<ACPI>)
        requires
            region_address + region@.len() <= usize::MAX,
        ensures
            match r {
                Some(a) => exists|i: int|
                    occurs_at(region@, root_signature(), i) && (forall|j: int|
                        0 <= j < i ==> !occurs_at(region@, root_signature(), j)) && i + 36
                        <= region@.len() && checksum_valid(region@.subrange(i, i + 36)) && a.root()
                        == region_address + i,
                None => forall|i: int|
                    occurs_at(region@, root_signature(), i) && (forall|j: int|
                        0 <= j < i ==> !occurs_at(region@, root_signature(), j)) ==> !(i + 36
                        <= region@.len() && checksum_valid(region@.subrange(i, i + 36))),
            },
    {
        let header: [u8; 8] = [0x52, 0x53, 0x44, 0x20, 0x50, 0x54, 0x52, 0x20];
        assert(header@ =~= root_signature());
        let found = search(region, &header);
        match found {
            None => None,
            Some(i) => {
                if region.len() - i < ROOT_DESCRIPTION_LEN {
                    return None;
                }
                let table = slice_subrange(region, i, i + ROOT_DESCRIPTION_LEN);
                if is_checksum_valid(table) {
                    Some(ACPI { root_system_description: region_address + i })
                } else {
                    None
                }
            },
        }
    }

    /// The address of the root system description pointer.
    pub fn root_system_description(&self) -> (r: usize)
        ensures
            r == self.root(),
    {
        self.root_system_description
    }
}

} // verus!
