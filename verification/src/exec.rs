//! Starting a program: the initial user stack that the System V ABI
//! prescribes (argument count, argument and environment pointers, the
//! auxiliary vector, and the strings they point to).

use vstd::prelude::*;
use vstd::slice::slice_to_vec;
use vstd::utf8::encode_utf8;
use vstd::arithmetic::power2::lemma2_to64;
use crate::allocator::{BuddyAllocator, in_block};
use crate::elf::{ElfLoader, SegmentCopy, areas_loaded, page_loaded, ehdr_error, le, loadable, ph_vaddr, ph_memsz, ph_filesz, ph_offset, segment_vma, segment_pages, lemma_le_bound};
use crate::page_owner::PageOwners;
use crate::paging::{PageAllocator, PageTable, translate_spec, leaf_flags, PhysMemory, PageFlags, is_tree, tree_ok, huge_on_path, lemma_tree_walk, lemma_tree_fewer_free, lemma_same_region_huge, lemma_index_bounds, no_huge_low};
use crate::process::{Process, USER_STACK_PAGE_FLAGS};
use crate::vma::{VMA, VMAFlags, VMAKind, covers, covers_as, holds_as, ends_fit, lemma_add_ends_fit_any, add_vma_spec, add_conflict};

verus! {

/// A string as the program sees it: its UTF-8 bytes and a NUL.
pub open spec fn strz(s: Seq<char>) -> Seq<u8> {
    encode_utf8(s).push(0u8)
}

/// Bytes taken by the first `n` strings of `ss`, each with its NUL.
pub open spec fn strings_size(ss: Seq<Seq<char>>, n: int) -> int
    decreases n,
{
    if n <= 0 {
        0
    } else {
        strings_size(ss, n - 1) + strz(ss[n - 1]).len()
    }
}

proof fn lemma_strings_size_mono(ss: Seq<Seq<char>>, i: int, j: int)
    requires
        0 <= i <= j,
    ensures
        0 <= strings_size(ss, i) <= strings_size(ss, j),
    decreases j,
{
    if j > i {
        lemma_strings_size_mono(ss, i, j - 1);
    } else if i > 0 {
        lemma_strings_size_mono(ss, i - 1, i - 1);
    }
}

/// Where the `i`-th environment string goes: the environment strings are
/// stacked downward from `top`, the first one highest.
pub open spec fn env_addr(top: u64, env: Seq<Seq<char>>, i: int) -> u64 {
    (top - strings_size(env, i + 1)) as u64
}

/// Where the `i`-th argument string goes: below the environment strings.
pub open spec fn arg_addr(top: u64, env: Seq<Seq<char>>, args: Seq<Seq<char>>, i: int) -> u64 {
    (top - strings_size(env, env.len() as int) - strings_size(args, i + 1)) as u64
}

/// Where the 16 random bytes go: below the strings.
pub open spec fn random_addr(top: u64, env: Seq<Seq<char>>, args: Seq<Seq<char>>) -> u64 {
    (top - strings_size(env, env.len() as int) - strings_size(args, args.len() as int) - 16) as u64
}

/// The auxiliary vector, as (type, value) words, ending with the null
/// entry.
pub open spec fn auxv_words(phdr: u64, phent: u64, phnum: u64, entry: u64, random: u64) -> Seq<u64> {
    seq![
        3, phdr, 4, phent, 5, phnum, 6, 4096, 7, 0, 8, 0, 9, entry, 11, 0, 12, 0, 13, 0, 14, 0, 23, 0, 25,
        random, 33, 0, 0, 0,
    ]
}

/// The words of the stack from the stack pointer up: the argument count,
/// the argument pointers and a null, the environment pointers and a null,
/// and the auxiliary vector.
pub open spec fn stack_words(
    top: u64,
    env: Seq<Seq<char>>,
    args: Seq<Seq<char>>,
    phdr: u64,
    phent: u64,
    phnum: u64,
    entry: u64,
) -> Seq<u64> {
    seq![args.len() as u64]
        + Seq::new(args.len(), |i: int| arg_addr(top, env, args, i))
        + seq![0u64]
        + Seq::new(env.len(), |i: int| env_addr(top, env, i))
        + seq![0u64]
        + auxv_words(phdr, phent, phnum, entry, random_addr(top, env, args))
}

/// The stack pointer: below the random bytes, aligned to 16 so that the
/// stack pointer itself ends up aligned to 16.
pub open spec fn stack_rsp(top: u64, env: Seq<Seq<char>>, args: Seq<Seq<char>>) -> int {
    let r = random_addr(top, env, args);
    let words = args.len() + env.len() + 33;
    let base = r - r % 16 - (if words % 2 == 1 { 8int } else { 0int });
    base - 8 * words
}

/// Room enough below `top` for everything the stack receives.
pub open spec fn stack_fits(top: u64, env: Seq<Seq<char>>, args: Seq<Seq<char>>) -> bool {
    strings_size(env, env.len() as int) + strings_size(args, args.len() as int) + 40
        + 8 * (args.len() + env.len() + 33) <= top
}

/// The characters of each string.
pub open spec fn texts(ss: Seq<String>) -> Seq<Seq<char>> {
    ss.map_values(|s: String| s@)
}

/// The blob `b` holds `bytes` at `addr`.
pub open spec fn blob_is(b: (u64, Vec<u8>), addr: u64, bytes: Seq<u8>) -> bool {
    b.0 == addr && b.1@ == bytes
}

/// The image of the initial stack below `top` for the arguments `argv`,
/// the environment `envp` and the 16 random bytes `random`: the words from
/// the stack pointer up, then the strings of the environment, those of the
/// arguments, and the random bytes, each at its place.
pub open spec fn stack_image_ok(
    r: StackImage,
    top: u64,
    envp: Seq<String>,
    argv: Seq<String>,
    entry: u64,
    phdr: u64,
    phent: u64,
    phnum: u64,
    random: Seq<u8>,
) -> bool {
    &&& r.rsp == stack_rsp(top, texts(envp), texts(argv))
    &&& r.rsp % 16 == 0
    &&& r.words@ == stack_words(top, texts(envp), texts(argv), phdr, phent, phnum, entry)
    &&& r.blobs@.len() == envp.len() + argv.len() + 1
    &&& forall|i: int| 0 <= i < envp.len() ==> blob_is(#[trigger] r.blobs@[i], env_addr(top, texts(envp), i), strz(envp[i]@))
    &&& forall|i: int| 0 <= i < argv.len() ==> blob_is(#[trigger] r.blobs@[envp.len() + i], arg_addr(top, texts(envp), texts(argv), i), strz(argv[i]@))
    &&& r.blobs@[(envp.len() + argv.len()) as int].0 == random_addr(top, texts(envp), texts(argv))
    &&& r.blobs@[(envp.len() + argv.len()) as int].1@ == random
}

/// What goes on a new stack: `words` from `rsp` up, and each blob's bytes
/// at its address.
pub struct StackImage {
    pub rsp: u64,
    pub words: Vec<u64>,
    pub blobs: Vec<(u64, Vec<u8>)>,
}

/// The initial stack below `top` for a program with arguments `argv` and
/// environment `envp`: the environment strings, then the argument strings,
/// then `random`, then (aligned) the words that point to them.
#[verifier::spinoff_prover]
#[verifier::rlimit(30)]
pub fn build_argv_envp_stack(
    top: u64,
    argv: &[String],
    envp: &[String],
    elf_entry: u64,
    elf_phdr_vaddr: u64,
    elf_phent: u64,
    elf_phnum: u64,
    random: [u8; 16],
) -> (r: StackImage)
    requires
        stack_fits(top, texts(envp@), texts(argv@)),
    ensures
        stack_image_ok(r, top, envp@, argv@, elf_entry, elf_phdr_vaddr, elf_phent, elf_phnum, random@),
{
    let ghost env = texts(envp@);
    let ghost args = texts(argv@);
    let ghost se = strings_size(env, env.len() as int);
    let ghost sa = strings_size(args, args.len() as int);
    proof {
        lemma_strings_size_mono(env, 0, env.len() as int);
        lemma_strings_size_mono(args, 0, args.len() as int);
    }
    let mut addr = top;
    let mut blobs: Vec<(u64, Vec<u8>)> = Vec::new();
    let mut envp_ptrs: Vec<u64> = Vec::new();
    let mut i: usize = 0;
    while i < envp.len()
        invariant
            i <= envp@.len(),
            env == texts(envp@),
            se == strings_size(env, env.len() as int),
            se >= 0,
            sa >= 0,
            se + sa + 40 + 8 * (args.len() + env.len() + 33) <= top,
            addr == top - strings_size(env, i as int),
            envp_ptrs@ == Seq::new(i as nat, |j: int| env_addr(top, env, j)),
            blobs@.len() == i,
            forall|j: int| 0 <= j < i ==> #[trigger] blobs@[j].0 == env_addr(top, env, j) && blobs@[j].1@ == strz(env[j]),
        decreases envp@.len() - i,
    {
        let bytes = envp[i].as_str().as_bytes();
        proof {
            lemma_strings_size_mono(env, i + 1, env.len() as int);
            assert(env[i as int] == envp@[i as int]@);
            assert(bytes@ == encode_utf8(env[i as int]));
            assert(strings_size(env, i + 1) == strings_size(env, i as int) + bytes@.len() + 1);
            assert(bytes@.len() + 1 <= addr);
        }
        addr = addr - (bytes.len() as u64 + 1);
        let mut b = slice_to_vec(bytes);
        b.push(0u8);
        blobs.push((addr, b));
        envp_ptrs.push(addr);
        i = i + 1;
        proof {
            assert(envp_ptrs@ =~= Seq::new(i as nat, |j: int| env_addr(top, env, j)));
        }
    }
    let mut argv_ptrs: Vec<u64> = Vec::new();
    let mut arg_blobs: Vec<(u64, Vec<u8>)> = Vec::new();
    let mut k: usize = 0;
    while k < argv.len()
        invariant
            k <= argv@.len(),
            env == texts(envp@),
            args == texts(argv@),
            se == strings_size(env, env.len() as int),
            sa == strings_size(args, args.len() as int),
            se >= 0,
            sa >= 0,
            se + sa + 40 + 8 * (args.len() + env.len() + 33) <= top,
            addr == top - se - strings_size(args, k as int),
            argv_ptrs@ == Seq::new(k as nat, |j: int| arg_addr(top, env, args, j)),
            arg_blobs@.len() == k,
            forall|j: int| 0 <= j < k ==> #[trigger] arg_blobs@[j].0 == arg_addr(top, env, args, j) && arg_blobs@[j].1@ == strz(args[j]),
        decreases argv@.len() - k,
    {
        let bytes = argv[k].as_str().as_bytes();
        proof {
            lemma_strings_size_mono(args, k + 1, args.len() as int);
            assert(args[k as int] == argv@[k as int]@);
            assert(bytes@ == encode_utf8(args[k as int]));
            assert(strings_size(args, k + 1) == strings_size(args, k as int) + bytes@.len() + 1);
            assert(bytes@.len() + 1 <= addr);
        }
        addr = addr - (bytes.len() as u64 + 1);
        let mut b = slice_to_vec(bytes);
        b.push(0u8);
        arg_blobs.push((addr, b));
        argv_ptrs.push(addr);
        k = k + 1;
        proof {
            assert(argv_ptrs@ =~= Seq::new(k as nat, |j: int| arg_addr(top, env, args, j)));
        }
    }
    addr = addr - 16;
    let random_ptr = addr;
    let ghost env_part = blobs@;
    let ghost arg_part = arg_blobs@;
    blobs.append(&mut arg_blobs);
    blobs.push((addr, slice_to_vec(&random)));
    proof {
        assert(env_part.len() == env.len() && arg_part.len() == args.len());
        assert forall|j: int| 0 <= j < env.len() implies #[trigger] blobs@[j].0 == env_addr(top, env, j) && blobs@[j].1@ == strz(env[j]) by {
            assert(blobs@[j] == env_part[j]);
        }
        assert forall|j: int| 0 <= j < args.len() implies #[trigger] blobs@[env.len() + j].0 == arg_addr(top, env, args, j)
            && blobs@[env.len() + j].1@ == strz(args[j]) by {
            assert(blobs@[env.len() + j] == arg_part[j]);
            assert(arg_part[j].0 == arg_addr(top, env, args, j));
        }
    }
    let auxv: [(u64, u64); 15] = [
        (3, elf_phdr_vaddr),
        (4, elf_phent),
        (5, elf_phnum),
        (6, 4096),
        (7, 0),
        (8, 0),
        (9, elf_entry),
        (11, 0),
        (12, 0),
        (13, 0),
        (14, 0),
        (23, 0),
        (25, random_ptr),
        (33, 0),
        (0, 0),
    ];
    let total_words: u64 = argv.len() as u64 + envp.len() as u64 + 33;
    addr = addr - addr % 16;
    if total_words % 2 != 0 {
        addr = addr - 8;
    }
    let rsp = addr - 8 * total_words;
    let mut words: Vec<u64> = Vec::new();
    words.push(argv.len() as u64);
    let mut a: usize = 0;
    while a < argv_ptrs.len()
        invariant
            a <= argv_ptrs@.len(),
            words@ == seq![argv@.len() as u64] + argv_ptrs@.subrange(0, a as int),
        decreases argv_ptrs@.len() - a,
    {
        words.push(argv_ptrs[a]);
        a = a + 1;
        proof {
            assert(words@ =~= seq![argv@.len() as u64] + argv_ptrs@.subrange(0, a as int));
        }
    }
    words.push(0);
    let ghost w1 = words@;
    let mut e: usize = 0;
    while e < envp_ptrs.len()
        invariant
            e <= envp_ptrs@.len(),
            words@ == w1 + envp_ptrs@.subrange(0, e as int),
        decreases envp_ptrs@.len() - e,
    {
        words.push(envp_ptrs[e]);
        e = e + 1;
        proof {
            assert(words@ =~= w1 + envp_ptrs@.subrange(0, e as int));
        }
    }
    words.push(0);
    let ghost w2 = words@;
    let mut x: usize = 0;
    while x < 15
        invariant
            x <= 15,
            words@ == w2 + Seq::new(2 * x as nat, |j: int| if j % 2 == 0 { auxv@[j / 2].0 } else { auxv@[j / 2].1 }),
        decreases 15 - x,
    {
        words.push(auxv[x].0);
        words.push(auxv[x].1);
        x = x + 1;
        proof {
            assert(words@ =~= w2 + Seq::new(2 * x as nat, |j: int| if j % 2 == 0 { auxv@[j / 2].0 } else { auxv@[j / 2].1 }));
        }
    }
    proof {
        assert(Seq::new(30, |j: int| if j % 2 == 0 { auxv@[j / 2].0 } else { auxv@[j / 2].1 })
            =~= auxv_words(elf_phdr_vaddr, elf_phent, elf_phnum, elf_entry, random_ptr));
        assert(argv_ptrs@.subrange(0, argv_ptrs@.len() as int) =~= argv_ptrs@);
        assert(envp_ptrs@.subrange(0, envp_ptrs@.len() as int) =~= envp_ptrs@);
        assert(words@ =~= stack_words(top, env, args, elf_phdr_vaddr, elf_phent, elf_phnum, elf_entry));
    }
    proof {
        assert(rsp == stack_rsp(top, env, args));
        assert(rsp % 16 == 0);
        assert(blobs@.len() == env.len() + args.len() + 1);
        assert(blobs@[(env.len() + args.len()) as int].0 == random_addr(top, env, args));
        assert(blobs@[(env.len() + args.len()) as int].1@ == random@);
    }
    let r = StackImage { rsp, words, blobs };
    proof {
        assert forall|i: int| 0 <= i < envp@.len() implies blob_is(#[trigger] r.blobs@[i], env_addr(top, env, i), strz(envp@[i]@)) by {
            assert(env[i] == envp@[i]@);
            assert(r.blobs@[i].0 == env_addr(top, env, i) && r.blobs@[i].1@ == strz(env[i]));
        }
        assert forall|i: int| 0 <= i < argv@.len() implies blob_is(#[trigger] r.blobs@[envp@.len() + i], arg_addr(top, env, args, i), strz(argv@[i]@)) by {
            assert(args[i] == argv@[i]@);
            assert(r.blobs@[env.len() + i].0 == arg_addr(top, env, args, i) && r.blobs@[env.len() + i].1@ == strz(args[i]));
        }
    }
    r
}


// ----------------------------------------------------------------------
// Replacing a process's program
// ----------------------------------------------------------------------

/// Top of the user stack of a program.
pub const USER_STACK_TOP: u64 = 0x7fff_0000;

/// Pages of the user stack, mapped below its top.
pub const USER_STACK_PAGES: u64 = 128;

/// The program-header fields of the ELF header of `d`.
pub open spec fn elf_phoff(d: Seq<u8>) -> int {
    le(d, 32, 8)
}

pub open spec fn elf_phent(d: Seq<u8>) -> int {
    le(d, 54, 2)
}

pub open spec fn elf_phnum(d: Seq<u8>) -> int {
    le(d, 56, 2)
}

/// Offset of program header `i` of `d`.
pub open spec fn elf_ph(d: Seq<u8>, i: int) -> int {
    elf_phoff(d) + i * elf_phent(d)
}

/// Pages that the segments of the first `k` program headers of `d` take.
pub open spec fn elf_pages(d: Seq<u8>, k: int) -> int
    decreases k,
{
    if k <= 0 {
        0
    } else {
        elf_pages(d, k - 1) + segment_pages(d, elf_ph(d, k - 1))
    }
}

/// Every loaded segment of `d` ends, rounded up to a page, at least a page
/// below 2^64, and its file bytes end below 2^64.
pub open spec fn elf_fits(d: Seq<u8>) -> bool {
    forall|i: int| 0 <= i < elf_phnum(d) && #[trigger] loadable(d, elf_ph(d, i)) ==> {
        &&& ph_vaddr(d, elf_ph(d, i)) + ph_memsz(d, elf_ph(d, i)) + 8192 <= u64::MAX
        &&& ph_vaddr(d, elf_ph(d, i)) + ph_filesz(d, elf_ph(d, i)) <= u64::MAX
    }
}

/// The greatest end of the areas of `s` that are not stacks (0 when none).
pub open spec fn highest_end(s: Seq<VMA>) -> u64
    decreases s.len(),
{
    if s.len() == 0 {
        0
    } else {
        let m = highest_end(s.drop_last());
        if s.last().kind != VMAKind::Stack && s.last().end > m { s.last().end } else { m }
    }
}

/// The area of the user stack: its pages and the page above its top.
pub open spec fn stack_area() -> VMA {
    VMA {
        start: (USER_STACK_TOP - USER_STACK_PAGES * 4096) as u64,
        end: (USER_STACK_TOP + 4096) as u64,
        flags: VMAFlags { read: true, write: true, execute: false },
        kind: VMAKind::Stack,
    }
}

/// Where a new program starts: its entry point, its initial stack, and
/// the file bytes that its pages receive.
pub struct ExecStart {
    pub entry: u64,
    pub stack: StackImage,
    pub copies: Vec<SegmentCopy>,
    /// The environment the program starts with.
    pub envp: Vec<String>,
}

proof fn lemma_loader_matches(l: ElfLoader, d: Seq<u8>, k: int)
    requires
        l.data@ == d,
        l.phoff == elf_phoff(d),
        l.phnum == elf_phnum(d),
        l.phentsize == elf_phent(d),
        0 <= k,
    ensures
        forall|i: int| #[trigger] l.ph(i) == elf_ph(d, i),
        l.pages_of(k) == elf_pages(d, k),
    decreases k,
{
    if k > 0 {
        lemma_loader_matches(l, d, k - 1);
        assert(l.ph(k - 1) == elf_ph(d, k - 1));
    }
}

/// A loader made from `d` whose segments fit is ready to load: its
/// segments' ranges and areas fit below 2^64, and its page count is that
/// of `d`.
proof fn lemma_loader_ready(loader: ElfLoader, d: Seq<u8>)
    requires
        usize::BITS == 64,
        ehdr_error(d) is None,
        elf_fits(d),
        loader.data@ == d,
        loader.phoff == le(d, 32, 8) as usize,
        loader.phnum == le(d, 56, 2),
        loader.phentsize == le(d, 54, 2),
    ensures
        loader.ranges_fit(),
        loader.ends_ok(),
        loader.phoff == elf_phoff(d),
        loader.pages_of(loader.phnum as int) == elf_pages(d, elf_phnum(d)),
{
    lemma_le_bound(d, 32, 8);
    lemma_le_bound(d, 54, 2);
    lemma_le_bound(d, 56, 2);
    reveal_with_fuel(crate::elf::pow256, 9);
    assert(loader.phoff == elf_phoff(d));
    lemma_loader_matches(loader, d, loader.phnum as int);
    assert forall|i: int| 0 <= i < loader.phnum && #[trigger] loadable(loader.data@, loader.ph(i)) implies {
        &&& ph_vaddr(loader.data@, loader.ph(i)) + ph_memsz(loader.data@, loader.ph(i)) + 4096 <= u64::MAX
        &&& ph_vaddr(loader.data@, loader.ph(i)) + ph_filesz(loader.data@, loader.ph(i)) <= u64::MAX
    } by {
        assert(loadable(d, elf_ph(d, i)));
    }
    assert forall|i: int| 0 <= i < loader.phnum && #[trigger] loadable(loader.data@, loader.ph(i)) implies
        segment_vma(loader.data@, loader.ph(i)).end + 4095 <= u64::MAX by {
        assert(loadable(d, elf_ph(d, i)));
        lemma_le_bound(d, elf_ph(d, i) + 16, 8);
        lemma_le_bound(d, elf_ph(d, i) + 40, 8);
        let x = ph_vaddr(d, elf_ph(d, i)) + ph_memsz(d, elf_ph(d, i));
        assert(x >= 0);
        assert(x % 4096 < 4096);
        assert(crate::allocator::align_up_spec(x, 4096) <= x + 4095);
        assert(segment_vma(d, elf_ph(d, i)).end == crate::allocator::align_up_spec(x, 4096));
        assert(loader.ph(i) == elf_ph(d, i));
    }
}

proof fn lemma_highest_end(s: Seq<VMA>)
    requires
        ends_fit(s),
    ensures
        highest_end(s) + 4095 <= u64::MAX,
    decreases s.len(),
{
    if s.len() > 0 {
        assert(ends_fit(s.drop_last())) by {
            assert forall|k: int| 0 <= k < s.drop_last().len() implies (#[trigger] s.drop_last()[k]).end + 4095 <= u64::MAX by {
                assert(s.drop_last()[k] == s[k]);
            }
        }
        lemma_highest_end(s.drop_last());
        assert(s.last() == s[s.len() - 1]);
    }
}

/// The areas after the first `k` program headers of `d` are loaded into
/// an address space with the areas `s`.
pub open spec fn elf_areas_after(d: Seq<u8>, s: Seq<VMA>, k: int) -> Seq<VMA>
    decreases k,
{
    if k <= 0 {
        s
    } else {
        let prev = elf_areas_after(d, s, k - 1);
        if loadable(d, elf_ph(d, k - 1)) {
            add_vma_spec(prev, segment_vma(d, elf_ph(d, k - 1)))
        } else {
            prev
        }
    }
}

/// Every loadable segment of `d` names file bytes inside `d`, lies in the
/// lower half, and overlaps none of the segments before it.
pub open spec fn elf_loads_cleanly(d: Seq<u8>) -> bool {
    forall|i: int| 0 <= i < elf_phnum(d) && #[trigger] loadable(d, elf_ph(d, i)) ==> {
        &&& ph_offset(d, elf_ph(d, i)) + ph_filesz(d, elf_ph(d, i)) <= d.len()
        &&& segment_vma(d, elf_ph(d, i)).end <= 0x8000_0000_0000
        &&& !add_conflict(elf_areas_after(d, Seq::empty(), i), segment_vma(d, elf_ph(d, i)))
    }
}

proof fn lemma_areas_match(l: ElfLoader, d: Seq<u8>, s: Seq<VMA>, k: int)
    requires
        l.data@ == d,
        forall|i: int| #[trigger] l.ph(i) == elf_ph(d, i),
    ensures
        l.areas_after(s, k) == elf_areas_after(d, s, k),
    decreases k,
{
    if k > 0 {
        lemma_areas_match(l, d, s, k - 1);
        assert(l.ph(k - 1) == elf_ph(d, k - 1));
    }
}

/// The environment a program starts with: the one given, or the single
/// string `PATH=/` when none is given.
pub open spec fn start_env(envp: Seq<Seq<char>>) -> Seq<Seq<char>> {
    if envp.len() == 0 {
        seq!["PATH=/"@]
    } else {
        envp
    }
}

/// Every page of the user stack is mapped through `pml4`, with the flags
/// of a user stack page, to a page that is in use in `a`.
pub open spec fn user_stack_mapped(m: Map<u64, PageTable>, a: BuddyAllocator, pml4: u64) -> bool {
    forall|v: u64| USER_STACK_TOP - USER_STACK_PAGES * 4096 <= v < USER_STACK_TOP && v % 4096 == 0 ==> {
        &&& #[trigger] translate_spec(m, pml4, v) matches Some(f) && f % 4096 == 0 && !a.is_free(f as int)
        &&& leaf_flags(m, pml4, v) == Some(USER_STACK_PAGE_FLAGS)
    }
}

/// No area of `s` reaches into the user stack.
pub open spec fn clear_of_stack(s: Seq<VMA>) -> bool {
    forall|k: int| 0 <= k < s.len() ==> (#[trigger] s[k]).end <= USER_STACK_TOP - USER_STACK_PAGES * 4096
        || s[k].start >= USER_STACK_TOP
}

/// Replaces the program of `p` by the ELF executable `data`: the old
/// areas and pages go; the segments are loaded; the heap starts at the
/// first page boundary at or above the highest end of the loaded areas;
/// the user stack's pages are mapped and its area added; and the initial
/// stack is laid out for `argv`, the environment (`envp`, or `PATH=/`
/// when `envp` is empty) and `random`. Errors: -8 when the
/// file is not a loadable executable, -12 when a stack page is missing.
pub fn exec_image(
    p: &mut Process,
    data: &[u8],
    argv: &[String],
    envp: &[String],
    random: [u8; 16],
    alloc: &mut BuddyAllocator,
    mem: &mut PhysMemory,
    owners: &mut PageOwners,
) -> (r: Result<ExecStart, i64>)
    requires
        usize::BITS == 64,
        data@.len() <= isize::MAX,
        old(p).wf(),
        old(alloc).wf(),
        ehdr_error(data@) is None ==> elf_fits(data@)
            && old(owners).owners@.len() + elf_pages(data@, elf_phnum(data@)) <= old(owners).capacity,
        stack_fits(USER_STACK_TOP, start_env(texts(envp@)), texts(argv@)),
    ensures
        final(p).wf(),
        final(alloc).wf(),
        final(p).pid == old(p).pid,
        final(p).parent_pid == old(p).parent_pid,
        final(p).state == old(p).state,
        final(p).context == old(p).context,
        final(p).kernel_stack_top == old(p).kernel_stack_top,
        final(p).address_space.owner_pid == old(p).address_space.owner_pid,
        final(p).address_space.page_table.pml4() == old(p).address_space.page_table.pml4(),
        ehdr_error(data@) is Some ==> (r matches Err(e) && e == -8) && final(p).address_space.vmas@ == Seq::<VMA>::empty(),
        r matches Err(e) ==> e == -8 || e == -12,
        ({
            let pml4 = old(p).address_space.page_table.pml4();
            &&& ehdr_error(data@) is None
            &&& elf_loads_cleanly(data@)
            &&& old(p).address_space.vmas@.len() == 0
            &&& is_tree(old(mem)@, *old(alloc), pml4)
            &&& no_huge_low(old(mem)@, pml4)
            &&& old(alloc).free_pages() >= 4 * (elf_pages(data@, elf_phnum(data@)) + USER_STACK_PAGES)
        }) ==> r is Ok && user_stack_mapped(final(mem)@, *final(alloc), old(p).address_space.page_table.pml4())
            && (clear_of_stack(elf_areas_after(data@, Seq::empty(), elf_phnum(data@))) ==> areas_loaded(final(mem)@, *old(alloc),
                *final(alloc), old(p).address_space.page_table.pml4(), Seq::empty(), elf_areas_after(data@, Seq::empty(), elf_phnum(data@)))),
        r matches Ok(s) ==> {
            let d = data@;
            let entry = le(d, 24, 8) as u64;
            &&& ehdr_error(d) is None
            &&& s.entry == entry
            &&& final(p).brk_start == ((highest_end(final(p).address_space.vmas@) + 0xfff) as u64 & !0xfffu64)
            &&& final(p).brk_current == final(p).brk_start
            &&& final(p).fs_base == 0
            &&& texts(s.envp@) == start_env(texts(envp@))
            &&& stack_image_ok(s.stack, USER_STACK_TOP, s.envp@, argv@, entry, (0x40_0000 + elf_phoff(d)) as u64,
                elf_phent(d) as u64, elf_phnum(d) as u64, random@)
            &&& forall|k: int| 0 <= k < s.copies@.len() ==> (#[trigger] s.copies@[k]).file_offset + s.copies@[k].len <= d.len()
                && s.copies@[k].page_offset + s.copies@[k].len <= 4096
        },
{
    let ghost pml4 = old(p).address_space.page_table.pml4();
    let ghost good = ehdr_error(data@) is None
        && elf_loads_cleanly(data@)
        && old(p).address_space.vmas@.len() == 0
        && is_tree(old(mem)@, *old(alloc), pml4)
        && no_huge_low(old(mem)@, pml4)
        && old(alloc).free_pages() >= 4 * (elf_pages(data@, elf_phnum(data@)) + USER_STACK_PAGES);
    p.address_space.clear_user(alloc, mem, owners);
    let loader = match ElfLoader::new(data) {
        Ok(l) => l,
        Err(_) => return Err(-8),
    };
    proof {
        lemma_loader_ready(loader, data@);
        assert(Seq::<VMA>::empty() =~= p.address_space.vmas@);
        lemma_loader_matches(loader, data@, 0);
        if good {
            assert forall|i: int| 0 <= i < loader.phnum && #[trigger] loadable(loader.data@, loader.ph(i)) implies {
                &&& ph_offset(loader.data@, loader.ph(i)) + ph_filesz(loader.data@, loader.ph(i)) <= loader.data@.len()
                &&& segment_vma(loader.data@, loader.ph(i)).end <= 0x8000_0000_0000
                &&& !add_conflict(loader.areas_after(p.address_space.vmas@, i), segment_vma(loader.data@, loader.ph(i)))
            } by {
                assert(loader.ph(i) == elf_ph(data@, i));
                assert(loadable(data@, elf_ph(data@, i)));
                lemma_areas_match(loader, data@, Seq::empty(), i);
            }
            assert(loader.loads_cleanly(p.address_space.vmas@));
        }
    }
    let mut copies: Vec<SegmentCopy> = Vec::new();
    let ghost a_load = *alloc;
    let entry = match loader.load(&mut p.address_space, alloc, mem, owners, &mut copies) {
        Ok(e) => e,
        Err(_) => return Err(-8),
    };
    let ghost loaded = elf_areas_after(data@, Seq::empty(), elf_phnum(data@));
    let ghost clear = good && clear_of_stack(loaded);
    proof {
        if good {
            lemma_areas_match(loader, data@, Seq::empty(), loader.phnum as int);
            assert(a_load == *old(alloc));
            assert(p.address_space.vmas@ == loaded);
        }
    }
    let phdr = 0x40_0000u64 + loader.phoff as u64;
    let phent = loader.phentsize as u64;
    let phnum = loader.phnum as u64;
    let base = USER_STACK_TOP - USER_STACK_PAGES * 4096;
    let flags = PageFlags::present().union(PageFlags::writable()).union(PageFlags::user()).union(PageFlags::no_exec());
    proof {
        crate::paging::lemma_bit_constants();
    }
    let mut k: u64 = 0;
    while k < USER_STACK_PAGES
        invariant
            k <= USER_STACK_PAGES,
            base == USER_STACK_TOP - USER_STACK_PAGES * 4096,
            ehdr_error(data@) is None,
            flags.valid(),
            alloc.wf(),
            p.wf(),
            p.pid == old(p).pid,
            p.parent_pid == old(p).parent_pid,
            p.state == old(p).state,
            p.context == old(p).context,
            p.kernel_stack_top == old(p).kernel_stack_top,
            p.address_space.owner_pid == old(p).address_space.owner_pid,
            p.address_space.page_table.pml4() == old(p).address_space.page_table.pml4(),
            p.brk_start == old(p).brk_start,
            pml4 == p.address_space.page_table.pml4(),
            pml4 == old(p).address_space.page_table.pml4(),
            good == (ehdr_error(data@) is None
                && elf_loads_cleanly(data@)
                && old(p).address_space.vmas@.len() == 0
                && is_tree(old(mem)@, *old(alloc), pml4)
                && no_huge_low(old(mem)@, pml4)
                && old(alloc).free_pages() >= 4 * (elf_pages(data@, elf_phnum(data@)) + USER_STACK_PAGES)),
            good ==> is_tree(mem@, *alloc, pml4),
            good ==> alloc.free_pages() >= 4 * (USER_STACK_PAGES - k),
            good ==> no_huge_low(mem@, pml4),
            good ==> forall|v: u64| base <= v < base + k * 4096 && v % 4096 == 0 ==> {
                &&& #[trigger] translate_spec(mem@, pml4, v) matches Some(f) && f % 4096 == 0 && !alloc.is_free(f as int)
                &&& leaf_flags(mem@, pml4, v) == Some(USER_STACK_PAGE_FLAGS)
            },
            flags.bits == USER_STACK_PAGE_FLAGS,
            clear == (good && clear_of_stack(loaded)),
            clear ==> areas_loaded(mem@, *old(alloc), *alloc, pml4, Seq::empty(), loaded),
        decreases USER_STACK_PAGES - k,
    {
        let addr = base + k * 4096;
        let ghost a0 = *alloc;
        let ghost m0 = mem@;
        proof {
            lemma_index_bounds(addr);
            lemma_index_bounds(base);
            if good && crate::allocator::first_nonempty(a0.lists(), 0) == crate::allocator::MAX_ORDER {
                crate::allocator::lemma_first_nonempty_empty(a0.lists(), 0);
                crate::allocator::lemma_pages_below_empty(a0.lists(), crate::allocator::MAX_ORDER as nat);
            }
        }
        let page = match alloc.allocate(0) {
            Some(f) => f,
            None => return Err(-12),
        };
        proof {
            lemma2_to64();
            if good {
                let lv2 = choose|lv: Map<u64, int>| tree_ok(m0, a0, pml4, lv);
                lemma_tree_fewer_free(m0, a0, *alloc, pml4, lv2);
                lemma_tree_walk(m0, *alloc, pml4, lv2, addr);
                assert(!huge_on_path(m0, pml4, addr, 3));
                assert(alloc.free_pages() + 1 == a0.free_pages());
            }
        }
        let ghost a1 = *alloc;
        match p.address_space.page_table.map(addr, page, flags, alloc, mem) {
            Some(()) => {},
            None => return Err(-12),
        }
        proof {
            if good {
                assert(in_block(page@ as int, page@, 0));
                crate::paging::lemma_page_leaf(mem@, pml4, addr, page@, flags.bits);
                crate::paging::lemma_bit_constants();
                if alloc.is_free(page@ as int) {
                    assert(alloc.page_free(page@));
                    assert(a1.page_free(page@));
                }
                assert forall|v: u64| base <= v < base + (k + 1) * 4096 && v % 4096 == 0 implies {
                    &&& #[trigger] translate_spec(mem@, pml4, v) matches Some(f) && f % 4096 == 0 && !alloc.is_free(f as int)
                    &&& leaf_flags(mem@, pml4, v) == Some(USER_STACK_PAGE_FLAGS)
                } by {
                    if v < addr {
                        crate::paging::lemma_below_other_page(v, addr);
                        assert(translate_spec(mem@, pml4, v) == translate_spec(m0, pml4, v));
                        assert(leaf_flags(mem@, pml4, v) == leaf_flags(m0, pml4, v));
                        let f = translate_spec(m0, pml4, v)->0;
                        if alloc.is_free(f as int) {
                            assert(alloc.page_free(f));
                            assert(a1.page_free(f));
                            assert(a0.is_free(f as int));
                        }
                    } else {
                        assert(v == addr);
                    }
                }
            }
            if clear {
                assert forall|v: u64, f: VMAFlags, kd: VMAKind| v % 4096 == 0 && v < 0x8000_0000_0000 && #[trigger] covers_as(loaded, v as int, f, kd)
                    && !covers(Seq::<VMA>::empty(), v as int) implies page_loaded(mem@, *old(alloc), *alloc, pml4, v, f) by {
                    assert(page_loaded(m0, *old(alloc), a0, pml4, v, f));
                    let j = choose|j: int| 0 <= j < loaded.len() && #[trigger] holds_as(loaded[j], v as int, f, kd);
                    assert(loaded[j].end <= base || loaded[j].start >= USER_STACK_TOP);
                    if v < addr {
                        crate::paging::lemma_below_other_page(v, addr);
                    } else {
                        crate::paging::lemma_below_other_page(addr, v);
                    }
                    let q = translate_spec(m0, pml4, v)->0;
                    if alloc.is_free(q as int) {
                        assert(alloc.page_free(q));
                        assert(a1.page_free(q));
                        assert(a0.is_free(q as int));
                    }
                }
            }
        }
        k = k + 1;
    }
    let ghost before = p.address_space.vmas@;
    match p.address_space.add_vma(VMA::new(base, USER_STACK_TOP + 0x1000, VMAFlags::rw(), VMAKind::Stack)) {
        Ok(()) => {
            proof {
                lemma_add_ends_fit_any(before, stack_area());
            }
        },
        Err(_) => {},
    }
    let mut highest: u64 = 0;
    let mut i: usize = 0;
    proof {
        lemma_highest_end(p.address_space.vmas@);
        assert(p.address_space.vmas@.subrange(0, 0) =~= Seq::<VMA>::empty());
    }
    while i < p.address_space.vmas.len()
        invariant
            i <= p.address_space.vmas@.len(),
            highest == highest_end(p.address_space.vmas@.subrange(0, i as int)),
        decreases p.address_space.vmas@.len() - i,
    {
        let v = p.address_space.vmas[i];
        proof {
            let s = p.address_space.vmas@;
            assert(s.subrange(0, i + 1).drop_last() =~= s.subrange(0, i as int));
        }
        if v.kind != VMAKind::Stack && v.end > highest {
            highest = v.end;
        }
        i = i + 1;
    }
    proof {
        let s = p.address_space.vmas@;
        assert(s.subrange(0, s.len() as int) =~= s);
    }
    let brk = (highest + 0xfff) & !0xfffu64;
    p.brk_start = brk;
    p.brk_current = brk;
    let mut env: Vec<String> = Vec::new();
    if envp.len() == 0 {
        env.push("PATH=/".to_owned());
    } else {
        let mut j: usize = 0;
        while j < envp.len()
            invariant
                j <= envp@.len(),
                env@.len() == j,
                forall|q: int| 0 <= q < j ==> #[trigger] env@[q]@ == envp@[q]@,
            decreases envp@.len() - j,
        {
            env.push(envp[j].clone());
            j = j + 1;
        }
    }
    proof {
        if envp@.len() == 0 {
            reveal_strlit("PATH=/");
        }
        assert(texts(env@) =~= start_env(texts(envp@)));
    }
    let stack = build_argv_envp_stack(USER_STACK_TOP, argv, env.as_slice(), entry, phdr, phent, phnum, random);
    p.fs_base = 0;
    Ok(ExecStart { entry, stack, copies, envp: env })
}

} // verus!
