use kvs::brainfuck::{build_bucket_map, BracketError, Fault, Machine, MEMORY_SIZE};

const HELLO: &str = "++++++++[>++++[>++>+++>+++>+<<<<-]>+>+>->>+[<]<-]>>.>---.+++++++..+++.>>.<-.<.+++.------.--------.>>+.>++.";

fn run(program: &str) -> Result<Vec<u8>, Fault> {
    let mut machine = Machine::new(program).expect("brackets pair up");
    let mut out = Vec::new();
    while machine.is_running() {
        if let Some(b) = machine.step()? {
            out.push(b);
        }
    }
    Ok(out)
}

#[test]
fn bucket_map_pairs_brackets() {
    let map = build_bucket_map("a[b[c]d]e").unwrap();
    assert_eq!(map, vec![0, 7, 0, 5, 0, 3, 0, 1, 0]);
}

#[test]
fn bucket_map_empty_program() {
    assert_eq!(build_bucket_map("").unwrap(), Vec::<usize>::new());
}

#[test]
fn bucket_map_sibling_loops() {
    assert_eq!(build_bucket_map("[][]").unwrap(), vec![1, 0, 3, 2]);
}

#[test]
fn bucket_map_unmatched_close() {
    assert_eq!(build_bucket_map("[]]["), Err(BracketError::UnmatchedClose));
}

#[test]
fn bucket_map_unmatched_open() {
    assert_eq!(build_bucket_map("[[]"), Err(BracketError::UnmatchedOpen));
}

#[test]
fn bucket_map_partner_of_partner() {
    let program = "+[>[-]<[->+<]]";
    let map = build_bucket_map(program).unwrap();
    for (i, b) in program.bytes().enumerate() {
        if b == b'[' || b == b']' {
            assert_eq!(map[map[i]], i);
        }
    }
}

#[test]
fn machine_prints_hello_world() {
    let out = run(HELLO).unwrap();
    assert_eq!(String::from_utf8(out).unwrap(), "Hello World!\n");
}

#[test]
fn machine_starts_cleared() {
    let m = Machine::new("+").unwrap();
    assert_eq!(m.data_pointer(), 0);
    assert_eq!(m.counter(), 0);
    assert_eq!(m.cell(MEMORY_SIZE - 1), 0);
}

#[test]
fn machine_skips_loop_on_zero() {
    let mut m = Machine::new("[+]+").unwrap();
    m.step().unwrap();
    assert_eq!(m.counter(), 3);
    m.step().unwrap();
    assert_eq!(m.cell(0), 1);
    assert!(!m.is_running());
}

#[test]
fn machine_comma_stores_its_own_byte() {
    let mut m = Machine::new(",.").unwrap();
    m.step().unwrap();
    assert_eq!(m.cell(0), b',');
    assert_eq!(m.step(), Ok(Some(b',')));
}

#[test]
fn machine_pointer_underflow() {
    let mut m = Machine::new("<").unwrap();
    assert_eq!(m.step(), Err(Fault::PointerUnderflow));
    assert_eq!(m.counter(), 0);
}

#[test]
fn machine_cell_underflow() {
    assert_eq!(run("-"), Err(Fault::CellUnderflow));
}

#[test]
fn machine_cell_overflow() {
    let program = "+".repeat(256);
    assert_eq!(run(&program), Err(Fault::CellOverflow));
}

#[test]
fn machine_pointer_out_of_range() {
    let program = format!("{}+", ">".repeat(MEMORY_SIZE));
    assert_eq!(run(&program), Err(Fault::PointerOutOfRange));
}

#[test]
fn machine_rejects_unbalanced_program() {
    assert_eq!(Machine::new("[").err(), Some(BracketError::UnmatchedOpen));
}
