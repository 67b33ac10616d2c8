//! The decisions of the process-management system calls: tracing, time, memory mapping and
//! the program break.
use vstd::prelude::*;

verus! {

/// Bytes in a page.
pub const PAGE_SIZE: usize = 0x1000;

/// What a system call returns when it fails.
pub const SYSCALL_FAILED: isize = -1;

/// Seconds and microseconds of a point in time.
#[derive(Debug)]
pub struct TimeVal {
    pub sec: usize,
    pub usec: usize,
}

impl TimeVal {
    /// Splits a count of microseconds into whole seconds and the microseconds left over.
    pub fn from_us(us: usize) -> (t: TimeVal)
        ensures
            t.sec == us / 1_000_000,
            t.usec == us % 1_000_000,
            t.sec * 1_000_000 + t.usec == us,
    {
        TimeVal { sec: us / 1_000_000, usec: us % 1_000_000 }
    }
}

/// What `sys_trace` asks of the task's memory or counters.
#[derive(PartialEq, Eq, Structural, Debug, Clone, Copy)]
pub enum TraceAction {
    /// Read the byte at this user address.
    ReadByte { addr: usize },
    /// Write the low byte of `data` at this user address.
    WriteByte { addr: usize, data: usize },
    /// Report how often the task made this system call.
    CountSyscall { syscall_id: usize },
    /// Unknown request: the call fails.
    Reject,
}

/// Decodes a trace request: 0 reads the byte at `id`, 1 writes `data` at `id`, 2 counts calls of
/// system call `id`; anything else is refused.
pub fn sys_trace(trace_request: usize, id: usize, data: usize) -> (a: TraceAction)
    ensures
        a == match trace_request {
            0 => TraceAction::ReadByte { addr: id },
            1 => TraceAction::WriteByte { addr: id, data },
            2 => TraceAction::CountSyscall { syscall_id: id },
            _ => TraceAction::Reject,
        },
{
    match trace_request {
        0 => TraceAction::ReadByte { addr: id },
        1 => TraceAction::WriteByte { addr: id, data },
        2 => TraceAction::CountSyscall { syscall_id: id },
        _ => TraceAction::Reject,
    }
}

/// The value `sys_trace` returns for a read: the byte, or -1 where the address cannot be read.
pub fn trace_read_reply(byte: Option<u8>) -> (r: isize)
    ensures
        r == match byte {
            Some(b) => b as isize,
            None => SYSCALL_FAILED,
        },
{
    match byte {
        Some(b) => b as isize,
        None => SYSCALL_FAILED,
    }
}

/// The value `sys_trace` returns for a count (the count, as a signed word).
pub fn trace_count_reply(count: usize) -> (r: isize)
    ensures
        r == count as isize,
{
    count as isize
}

/// The value a system call that succeeds or fails returns: 0, or -1 on failure.
pub fn status_reply(ok: bool) -> (r: isize)
    ensures
        r == if ok { 0 } else { SYSCALL_FAILED },
{
    if ok {
        0
    } else {
        SYSCALL_FAILED
    }
}

/// The value a system call that yields a number returns: the number (bytes read or written, a
/// descriptor, an address) as a signed word, or -1 on failure.
pub fn value_reply(value: Option<usize>) -> (r: isize)
    ensures
        r == match value {
            Some(v) => v as isize,
            None => SYSCALL_FAILED,
        },
{
    match value {
        Some(v) => v as isize,
        None => SYSCALL_FAILED,
    }
}

/// The value `sys_sbrk` returns: the old program break, or -1 where it could not be moved.
pub fn sys_sbrk(old_brk: Option<usize>) -> (r: isize)
    ensures
        r == match old_brk {
            Some(b) => b as isize,
            None => SYSCALL_FAILED,
        },
{
    value_reply(old_brk)
}

/// Bytes copied into the first `k` buffers under `plan`.
pub open spec fn copied_before(plan: Seq<usize>, k: int) -> int
    decreases k,
{
    if k <= 0 {
        0
    } else {
        copied_before(plan, k - 1) + plan[k - 1]
    }
}

/// The smaller of two integers.
pub open spec fn min(a: int, b: int) -> int {
    if a <= b {
        a
    } else {
        b
    }
}

/// `plan` is how an object of `size` bytes is spread over buffers of `lens` bytes: each buffer
/// in turn takes what is left or what fits, and the copy stops at the first buffer that would
/// take nothing.
pub open spec fn is_copy_plan(size: int, lens: Seq<usize>, plan: Seq<usize>) -> bool {
    &&& plan.len() <= lens.len()
    &&& forall|k: int|
        0 <= k < plan.len() ==> #[trigger] plan[k] == min(size - copied_before(plan, k), lens[k] as int)
            && plan[k] > 0
    &&& plan.len() < lens.len() ==> min(size - copied_before(plan, plan.len() as int), lens[plan.len() as int] as int) <= 0
}

/// How many bytes of an object of `size` bytes to copy into each of the buffers whose lengths
/// are `lens` (the user memory an object lands in may span pages).
pub fn copy_plan(size: usize, lens: &Vec<usize>) -> (plan: Vec<usize>)
    ensures
        is_copy_plan(size as int, lens@, plan@),
        copied_before(plan@, plan@.len() as int) <= size,
{
    let mut plan: Vec<usize> = Vec::new();
    let mut index: usize = 0;
    let mut i: usize = 0;
    while i < lens.len()
        invariant_except_break
            plan.len() == i,
        invariant
            i <= lens.len(),
            plan.len() <= i,
            index as int == copied_before(plan@, plan@.len() as int),
            index <= size,
            forall|k: int|
                0 <= k < plan.len() ==> #[trigger] plan@[k] == min(
                    size - copied_before(plan@, k),
                    lens@[k] as int,
                ) && plan@[k] > 0,
        ensures
            plan.len() == lens.len() || min(
                size - copied_before(plan@, plan@.len() as int),
                lens@[plan@.len() as int] as int,
            ) <= 0,
        decreases lens.len() - i,
    {
        let left = size - index;
        let copy_len = if left <= lens[i] {
            left
        } else {
            lens[i]
        };
        if copy_len > 0 {
            let ghost old_plan = plan@;
            plan.push(copy_len);
            proof {
                assert forall|k: int| 0 <= k < old_plan.len() implies copied_before(plan@, k)
                    == copied_before(old_plan, k) by {
                    lemma_copied_before_prefix(old_plan, plan@, k);
                }
                lemma_copied_before_prefix(old_plan, plan@, old_plan.len() as int);
            }
            index = index + copy_len;
        } else {
            break ;
        }
        i = i + 1;
    }
    plan
}

/// Sums over a prefix only read the prefix.
proof fn lemma_copied_before_prefix(a: Seq<usize>, b: Seq<usize>, k: int)
    requires
        0 <= k <= a.len(),
        k <= b.len(),
        forall|t: int| 0 <= t < k ==> a[t] == b[t],
    ensures
        copied_before(a, k) == copied_before(b, k),
    decreases k,
{
    if k > 0 {
        lemma_copied_before_prefix(a, b, k - 1);
    }
}

/// Access rights of a new mapping.
#[derive(PartialEq, Eq, Structural, Debug, Clone, Copy)]
pub struct MapPermission {
    pub readable: bool,
    pub writable: bool,
    pub executable: bool,
    pub user: bool,
}

/// A range of virtual page numbers, `start` included, `end` excluded.
#[derive(PartialEq, Eq, Structural, Debug, Clone, Copy)]
pub struct VpnRange {
    pub start: usize,
    pub end: usize,
}

/// Pages to map, and how.
#[derive(PartialEq, Eq, Structural, Debug, Clone, Copy)]
pub struct MapArea {
    pub range: VpnRange,
    pub permission: MapPermission,
}

/// The page that holds address `addr`.
pub open spec fn floor_page(addr: int) -> int {
    addr / PAGE_SIZE as int
}

/// The first page boundary at or above address `addr`, as a page number.
pub open spec fn ceil_page(addr: int) -> int {
    (addr + PAGE_SIZE - 1) / PAGE_SIZE as int
}

/// The pages that the `len` bytes from `start` touch.
pub open spec fn pages_of(start: int, len: int) -> VpnRange {
    VpnRange { start: floor_page(start) as usize, end: ceil_page(start + len) as usize }
}

/// How many pages the `len` bytes from `start` touch.
pub open spec fn page_count(start: int, len: int) -> int {
    ceil_page(start + len) - floor_page(start)
}

/// The pages that the `len` bytes from address `start` touch.
pub fn vpn_range(start: usize, len: usize) -> (r: VpnRange)
    requires
        start + len <= usize::MAX,
    ensures
        r == pages_of(start as int, len as int),
        r.start <= r.end,
        r.start * PAGE_SIZE <= start < (r.start + 1) * PAGE_SIZE,
        start + len <= r.end * PAGE_SIZE < start + len + PAGE_SIZE,
{
    let end_addr = start + len;
    let end = if end_addr == 0 {
        0
    } else {
        (end_addr - 1) / PAGE_SIZE + 1
    };
    VpnRange { start: start / PAGE_SIZE, end }
}

/// The rights that `port` asks for: bit 0 read, bit 1 write, bit 2 execute; the pages are
/// always user pages.
pub open spec fn permission_of(port: usize) -> MapPermission {
    MapPermission {
        readable: port & 1 != 0,
        writable: port & 2 != 0,
        executable: port & 4 != 0,
        user: true,
    }
}

/// `sys_mmap`'s arguments are acceptable: a page-aligned start, and a `port` that asks for some
/// right and sets no bit above the three rights.
pub open spec fn mmap_args_ok(start: usize, port: usize) -> bool {
    &&& start % PAGE_SIZE == 0
    &&& port & !7usize == 0
    &&& port & 7usize != 0
}

/// What `sys_mmap` decides, given for each page of the range whether it is mapped already:
/// the area to map, or nothing (the call fails) on bad arguments or if any page is mapped.
pub open spec fn mmap_decision(start: usize, len: usize, port: usize, mapped: Seq<bool>) -> Option<
    MapArea,
> {
    if !mmap_args_ok(start, port) {
        None
    } else if exists|k: int| 0 <= k < mapped.len() && #[trigger] mapped[k] {
        None
    } else {
        Some(MapArea { range: pages_of(start as int, len as int), permission: permission_of(port) })
    }
}

/// What `sys_munmap` decides, given for each page of the range whether it is mapped: the
/// pages to unmap, or nothing (the call fails) on an unaligned start or if any page is not
/// mapped.
pub open spec fn munmap_decision(start: usize, len: usize, mapped: Seq<bool>) -> Option<VpnRange> {
    if start % PAGE_SIZE != 0 {
        None
    } else if exists|k: int| 0 <= k < mapped.len() && !#[trigger] mapped[k] {
        None
    } else {
        Some(pages_of(start as int, len as int))
    }
}

/// Finds an entry of `flags` that equals `wanted`.
fn any_page(flags: &Vec<bool>, wanted: bool) -> (found: bool)
    ensures
        found == exists|k: int| 0 <= k < flags.len() && #[trigger] flags@[k] == wanted,
{
    let mut i: usize = 0;
    while i < flags.len()
        invariant
            i <= flags.len(),
            forall|k: int| 0 <= k < i ==> #[trigger] flags@[k] != wanted,
        decreases flags.len() - i,
    {
        if flags[i] == wanted {
            return true;
        }
        i = i + 1;
    }
    false
}

/// Decides a request to map the `len` bytes at `start` with rights `port`. `mapped[k]` tells
/// whether page `vpn_range(start, len).start + k` is mapped already. Fails (`None`) on an
/// unaligned start, on a `port` that asks for no right or for more than read, write and
/// execute, and if any page of the range is mapped; otherwise returns the area to map.
pub fn sys_mmap(start: usize, len: usize, port: usize, mapped: &Vec<bool>) -> (r: Option<MapArea>)
    requires
        mmap_args_ok(start, port) ==> start + len <= usize::MAX && mapped.len() == page_count(
            start as int,
            len as int,
        ),
    ensures
        r == mmap_decision(start, len, port, mapped@),
        (exists|k: int| 0 <= k < mapped.len() && mapped@[k]) ==> r is None,
        start % PAGE_SIZE != 0 || port == 0 || port > 7 ==> r is None,
        r matches Some(area) ==> {
            &&& area.range.start == start / PAGE_SIZE
            &&& area.permission.readable == ((port >> 0usize) & 1 == 1)
            &&& area.permission.writable == ((port >> 1usize) & 1 == 1)
            &&& area.permission.executable == ((port >> 2usize) & 1 == 1)
            &&& area.permission.user
        },
{
    proof {
        law_mmap_rights_follow_port_bits(port);
        law_mmap_port_range(port);
    }
    if start % PAGE_SIZE != 0 || port & !0x7 != 0 || port & 0x7 == 0 {
        return None;
    }
    let range = vpn_range(start, len);
    if any_page(mapped, true) {
        return None;
    }
    let permission = MapPermission {
        readable: port & 1 != 0,
        writable: port & 2 != 0,
        executable: port & 4 != 0,
        user: true,
    };
    Some(MapArea { range, permission })
}

/// Decides a request to unmap the `len` bytes at `start`. `mapped[k]` tells whether page
/// `vpn_range(start, len).start + k` is mapped. Fails (`None`) on an unaligned start and if any
/// page of the range is not mapped; otherwise returns the pages to unmap.
pub fn sys_munmap(start: usize, len: usize, mapped: &Vec<bool>) -> (r: Option<VpnRange>)
    requires
        start % PAGE_SIZE == 0 ==> start + len <= usize::MAX && mapped.len() == page_count(
            start as int,
            len as int,
        ),
    ensures
        r == munmap_decision(start, len, mapped@),
        (exists|k: int| 0 <= k < mapped.len() && !mapped@[k]) ==> r is None,
        r matches Some(range) ==> range.start == start / PAGE_SIZE,
{
    if start % PAGE_SIZE != 0 {
        return None;
    }
    let range = vpn_range(start, len);
    if any_page(mapped, false) {
        return None;
    }
    Some(range)
}

/// Pages that `sys_mmap` has just mapped can be unmapped by `sys_munmap` with the same start
/// and length, and exactly those pages are; once they are unmapped, unmapping a range of at
/// least one byte again fails.
pub proof fn law_munmap_undoes_mmap(start: usize, len: usize, port: usize)
    requires
        mmap_decision(start, len, port, Seq::new(page_count(start as int, len as int) as nat, |k: int| false)) is Some,
    ensures
        munmap_decision(start, len, Seq::new(page_count(start as int, len as int) as nat, |k: int| true)) == Some(
            mmap_decision(start, len, port, Seq::new(page_count(start as int, len as int) as nat, |k: int| false))->0.range,
        ),
        len > 0 ==> munmap_decision(start, len, Seq::new(page_count(start as int, len as int) as nat, |k: int| false)) is None,
{
    let pages = page_count(start as int, len as int);
    if len > 0 {
        assert(pages > 0);
        let none = Seq::new(pages as nat, |k: int| false);
        assert(!none[0]);
    }
}

/// With the same pages, a request to map and a request to unmap a range of at least one page
/// never both succeed.
pub proof fn law_mmap_munmap_exclusive(start: usize, len: usize, port: usize, mapped: Seq<bool>)
    requires
        mapped.len() > 0,
    ensures
        !(mmap_decision(start, len, port, mapped) is Some && munmap_decision(start, len, mapped) is Some),
{
    if mmap_decision(start, len, port, mapped) is Some {
        assert(!mapped[0]);
    }
}

/// Bit `b` of `port` is set.
pub open spec fn port_bit(port: usize, b: usize) -> bool {
    (port >> b) & 1 == 1
}

/// The rights of a mapping follow the bits of `port`: read with bit 0, write with bit 1,
/// execute with bit 2, and the pages are always user pages.
pub proof fn law_mmap_rights_follow_port_bits(port: usize)
    ensures
        permission_of(port).readable == port_bit(port, 0),
        permission_of(port).writable == port_bit(port, 1),
        permission_of(port).executable == port_bit(port, 2),
        permission_of(port).user,
{
    assert(((port & 1) != 0) == ((port >> 0usize) & 1 == 1)) by (bit_vector);
    assert(((port & 2) != 0) == ((port >> 1usize) & 1 == 1)) by (bit_vector);
    assert(((port & 4) != 0) == ((port >> 2usize) & 1 == 1)) by (bit_vector);
}

/// `port` is acceptable exactly when it asks for at least one of the three rights and for
/// nothing else: it lies between 1 and 7.
pub proof fn law_mmap_port_range(port: usize)
    ensures
        (port & !7usize == 0 && port & 7usize != 0) == (1 <= port <= 7),
{
    assert((port & !7usize == 0 && port & 7usize != 0) == (1 <= port && port <= 7)) by (bit_vector);
}

/// A request to map fails as soon as any one page of the range is already mapped; when no page
/// is mapped and the arguments are good, it maps the pages the bytes touch, with the rights the
/// bits of `port` ask for.
pub proof fn law_mmap_fails_on_any_mapped_page(
    start: usize,
    len: usize,
    port: usize,
    mapped: Seq<bool>,
    k: int,
)
    ensures
        0 <= k < mapped.len() && mapped[k] ==> mmap_decision(start, len, port, mapped) is None,
        mmap_args_ok(start, port) && (forall|i: int| 0 <= i < mapped.len() ==> !mapped[i]) ==> ({
            &&& mmap_decision(start, len, port, mapped) is Some
            &&& mmap_decision(start, len, port, mapped)->0.range.start == start / PAGE_SIZE
            &&& mmap_decision(start, len, port, mapped)->0.permission.readable == port_bit(port, 0)
            &&& mmap_decision(start, len, port, mapped)->0.permission.writable == port_bit(port, 1)
            &&& mmap_decision(start, len, port, mapped)->0.permission.executable == port_bit(port, 2)
            &&& mmap_decision(start, len, port, mapped)->0.permission.user
        }),
        mmap_decision(start, len, port, mapped) is Some ==> start % PAGE_SIZE == 0 && 1 <= port <= 7
            && forall|i: int| 0 <= i < mapped.len() ==> !mapped[i],
{
    law_mmap_rights_follow_port_bits(port);
    law_mmap_port_range(port);
    if 0 <= k < mapped.len() && mapped[k] {
        assert(exists|i: int| 0 <= i < mapped.len() && #[trigger] mapped[i]);
    }
}

/// A request to unmap fails as soon as any one page of the range is not mapped; when every
/// page is mapped and the start is page-aligned, it unmaps the pages the bytes touch.
pub proof fn law_munmap_fails_on_any_unmapped_page(start: usize, len: usize, mapped: Seq<bool>, k: int)
    ensures
        0 <= k < mapped.len() && !mapped[k] ==> munmap_decision(start, len, mapped) is None,
        start % PAGE_SIZE == 0 && (forall|i: int| 0 <= i < mapped.len() ==> mapped[i])
            ==> munmap_decision(start, len, mapped) == Some(
            VpnRange { start: start / PAGE_SIZE, end: ((start + len + PAGE_SIZE - 1) / PAGE_SIZE as int) as usize },
        ),
        munmap_decision(start, len, mapped) is Some ==> start % PAGE_SIZE == 0 && forall|i: int|
            0 <= i < mapped.len() ==> mapped[i],
{
    if 0 <= k < mapped.len() && !mapped[k] {
        assert(exists|i: int| 0 <= i < mapped.len() && !#[trigger] mapped[i]);
    }
}

} // verus!
