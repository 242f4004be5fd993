use rcore_os::config::PAGE_SIZE;
use rcore_os::kernel::Kernel;
use rcore_os::mm::UserBuffer;
use rcore_os::page_table::{
    page_pieces, PTEFlags, PagePiece, PageTable, PageTableEntry, PTE_R, PTE_U, PTE_V, PTE_W, PTE_X,
};
use rcore_os::shell::{pipeline_valid, split, words, ProcessArguments};
use rcore_os::task::id::{KernelStack, PidHandle};

fn parse(command: &str) -> ProcessArguments {
    ProcessArguments::try_new(command).unwrap()
}

fn strings(rows: &[&str]) -> Vec<Vec<u8>> {
    rows.iter().map(|row| row.as_bytes().to_vec()).collect()
}

#[test]
fn a_line_is_split_at_every_separator() {
    assert_eq!(split(b"", b'|'), strings(&[""]));
    assert_eq!(split(b"cat filea", b'|'), strings(&["cat filea"]));
    assert_eq!(split(b"cat filea | wc", b'|'), strings(&["cat filea ", " wc"]));
    assert_eq!(split(b"|a||b|", b'|'), strings(&["", "a", "", "b", ""]));
    assert_eq!(split(b"  a b ", b' '), strings(&["", "", "a", "b", ""]));
    assert_eq!(words(split(b"  a b ", b' ')), strings(&["a\0", "b\0"]));
    assert_eq!(words(split(b"   ", b' ')), Vec::<Vec<u8>>::new());
}

#[test]
fn a_command_is_its_words_with_a_nul_at_the_end() {
    let args = parse("cat filea");
    assert_eq!(args.args_copy, strings(&["cat\0", "filea\0"]));
    assert!(args.input.is_empty());
    assert!(args.output.is_empty());
    let args = parse("  echo   a  b ");
    assert_eq!(args.args_copy, strings(&["echo\0", "a\0", "b\0"]));
    let args = parse("");
    assert!(args.args_copy.is_empty());
}

#[test]
fn redirections_are_taken_out_of_the_arguments() {
    let args = parse("wc < filea > count");
    assert_eq!(args.args_copy, strings(&["wc\0"]));
    assert_eq!(args.input, b"filea\0".to_vec());
    assert_eq!(args.output, b"count\0".to_vec());
    let args = parse("> out cat a < in b");
    assert_eq!(args.args_copy, strings(&["cat\0", "a\0", "b\0"]));
    assert_eq!(args.input, b"in\0".to_vec());
    assert_eq!(args.output, b"out\0".to_vec());
    // only the first of each kind is a redirection
    let args = parse("cat < a < b");
    assert_eq!(args.args_copy, strings(&["cat\0", "<\0", "b\0"]));
    assert_eq!(args.input, b"a\0".to_vec());
    // a sign that is part of a word is no redirection
    let args = parse("cat <a a>b");
    assert_eq!(args.args_copy, strings(&["cat\0", "<a\0", "a>b\0"]));
    assert!(args.input.is_empty() && args.output.is_empty());
    // the word behind `<` is taken as it is
    let args = parse("cat < > b");
    assert_eq!(args.args_copy, strings(&["cat\0", "b\0"]));
    assert_eq!(args.input, b">\0".to_vec());
    assert!(args.output.is_empty());
    let same = ProcessArguments::new("wc < filea");
    assert_eq!(same.input, b"filea\0".to_vec());
}

#[test]
fn a_redirection_without_a_file_is_refused() {
    assert!(ProcessArguments::try_new("cat <").is_none());
    assert!(ProcessArguments::try_new("cat >  ").is_none());
    assert!(ProcessArguments::try_new("cat < a >").is_none());
    assert!(ProcessArguments::try_new("<").is_none());
    assert!(ProcessArguments::try_new("cat < >").is_some());
}

#[test]
fn only_the_ends_of_a_pipeline_may_redirect() {
    let line = |line: &str| -> Vec<ProcessArguments> {
        split(line.as_bytes(), b'|')
            .iter()
            .map(|command| parse(core::str::from_utf8(command).unwrap()))
            .collect()
    };
    assert!(pipeline_valid(&line("cat < a > b")));
    assert!(pipeline_valid(&line("cat < a | wc > b")));
    assert!(pipeline_valid(&line("cat < a | sort | wc > b")));
    assert!(pipeline_valid(&line("cat a | wc")));
    assert!(!pipeline_valid(&line("cat > a | wc")));
    assert!(!pipeline_valid(&line("cat | wc < a")));
    assert!(!pipeline_valid(&line("cat | sort < a | wc")));
    assert!(!pipeline_valid(&line("cat | sort > a | wc")));
    assert!(pipeline_valid(&Vec::new()));
}

#[test]
fn a_page_table_entry_holds_the_page_and_the_flags() {
    let flags = PTEFlags::from_bits(PTE_V | PTE_R | PTE_U).unwrap();
    let pte = PageTableEntry::new(0x12345, flags);
    assert_eq!(pte.bits, (0x12345 << 10) | 0b10011);
    assert_eq!(pte.ppn(), 0x12345);
    assert_eq!(pte.flags(), flags);
    assert!(pte.is_valid() && pte.readable());
    assert!(!pte.writable() && !pte.executable());
    let pte = PageTableEntry::new((1 << 44) - 1, PTEFlags { bits: PTE_W | PTE_X });
    assert_eq!(pte.ppn(), (1 << 44) - 1);
    assert!(!pte.is_valid() && pte.writable() && pte.executable() && !pte.readable());
    // the bits above the page number are not part of it
    assert_eq!(PageTableEntry { bits: u64::MAX }.ppn(), (1 << 44) - 1);
    assert_eq!(PageTableEntry { bits: u64::MAX }.flags().bits(), 0xff);
    let none = PageTableEntry::empty();
    assert_eq!((none.bits, none.ppn(), none.flags()), (0, 0, PTEFlags::empty()));
    assert!(!none.is_valid());
    assert!(flags.contains(PTEFlags { bits: PTE_R }));
    assert!(!flags.contains(PTEFlags { bits: PTE_R | PTE_W }));
    assert_eq!(flags.union(PTEFlags { bits: PTE_W }).bits(), 0b10111);
}

#[test]
fn the_token_names_the_root_page() {
    let table = PageTable { root_ppn: 0x80123 };
    assert_eq!(table.token(), 0x8000_0000_0008_0123);
    assert_eq!(PageTable::from_token(table.token()), table);
    assert_eq!(PageTable::from_token(u64::MAX).root_ppn, (1 << 44) - 1);
}

#[test]
fn a_buffer_is_cut_at_the_ends_of_pages() {
    assert_eq!(page_pieces(0x5010, 0), Vec::new());
    assert_eq!(page_pieces(0x5010, 0x20), vec![PagePiece { vpn: 5, start: 0x10, end: 0x30 }]);
    assert_eq!(page_pieces(0x5000, PAGE_SIZE), vec![PagePiece { vpn: 5, start: 0, end: PAGE_SIZE }]);
    assert_eq!(
        page_pieces(0x5ff0, 0x20),
        vec![
            PagePiece { vpn: 5, start: 0xff0, end: 0x1000 },
            PagePiece { vpn: 6, start: 0, end: 0x10 },
        ]
    );
    assert_eq!(
        page_pieces(0x5800, 0x2800),
        vec![
            PagePiece { vpn: 5, start: 0x800, end: 0x1000 },
            PagePiece { vpn: 6, start: 0, end: 0x1000 },
            PagePiece { vpn: 7, start: 0, end: 0x1000 },
        ]
    );
    let pieces = page_pieces(usize::MAX - 0x1001, 0x1001);
    assert_eq!(pieces.len(), 2);
    assert_eq!(pieces.iter().map(|p| p.end - p.start).sum::<usize>(), 0x1001);
}

#[test]
fn a_walk_passes_every_byte_of_a_buffer_once() {
    let buf = UserBuffer::new(vec![vec![10, 11], vec![12], vec![13, 14, 15]]);
    let flat = buf.to_vec();
    let mut walk = buf.into_iter();
    let mut seen = Vec::new();
    let mut places = Vec::new();
    while let Some((piece, idx)) = walk.next() {
        seen.push(walk.buffers[piece][idx]);
        places.push((piece, idx));
    }
    assert_eq!(seen, flat);
    assert_eq!(places, vec![(0, 0), (0, 1), (1, 0), (2, 0), (2, 1), (2, 2)]);
    assert_eq!(walk.next(), None);
    assert_eq!(UserBuffer::new(Vec::new()).into_iter().next(), None);
}

#[test]
fn process_ids_and_kernel_stacks_are_handed_out_in_order() {
    let mut kernel = Kernel::new();
    assert_eq!(kernel.pid_alloc(), PidHandle(0));
    assert_eq!(kernel.pid_alloc(), PidHandle(1));
    assert_eq!(kernel.kstack_alloc(), KernelStack(0));
    assert_eq!(kernel.kstack_alloc(), KernelStack(1));
    assert_eq!(kernel.kstack_alloc(), KernelStack(2));
    kernel.release_kstack(1);
    kernel.release_kstack(1);
    assert_eq!(kernel.kstack_alloc(), KernelStack(1));
    assert_eq!(kernel.kstack_alloc(), KernelStack(3));
}
