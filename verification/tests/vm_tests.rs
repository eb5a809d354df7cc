use gregex::regex::Config;
use gregex::thompson::ast::Anchor;
use gregex::thompson::bytecode::{Bytecode, Instruction};
use gregex::thompson::pike_vm::{class_contains, look_matches, PikeVM};
use gregex::util::{Char, Input, Span};
use Instruction::{Accept, Assertion, Consume, ConsumeAny, ConsumeClass, ConsumeOutlined, Fork2, ForkN, Jmp, WriteReg};

fn c(ch: char) -> Instruction {
    Consume(Char::from(ch))
}

fn machine(instructions: Vec<Instruction>, classes: Vec<Vec<(Char, Char)>>, groups: usize) -> PikeVM {
    let barriers = instructions
        .iter()
        .map(|i| matches!(i, Consume(_) | ConsumeAny | ConsumeClass(_) | ConsumeOutlined(_) | Assertion(_)))
        .collect();
    PikeVM::from_bytecode(Bytecode { instructions, barriers, outlined_classes: classes }, groups)
}

fn run(vm: &PikeVM, input: Input, width: usize) -> Option<Vec<Span>> {
    let mut state = vm.new_state();
    let mut spans = vec![Span::invalid(); width];
    if vm.exec(input, &mut state, &mut spans) {
        Some(spans)
    } else {
        None
    }
}

#[test]
fn consume_matches_one_character() {
    let vm = machine(vec![c('é'), Accept], vec![], 1);
    assert_eq!(run(&vm, Input::new("aéb"), 1), Some(vec![Span { from: 1, to: 3 }]));
    assert_eq!(run(&vm, Input::new("ab"), 1), None);
    assert_eq!(vm.capture_count(), 1);
}

#[test]
fn consume_any_matches_every_character() {
    let vm = machine(vec![ConsumeAny, ConsumeAny, Accept], vec![], 1);
    assert_eq!(run(&vm, Input::new("€\n"), 1), Some(vec![Span { from: 0, to: 4 }]));
    assert_eq!(run(&vm, Input::new("€"), 1), None);
}

#[test]
fn classes_match_their_ranges() {
    let ranges = vec![(Char::from('a'), Char::from('c')), (Char::from('x'), Char::from('z'))];
    assert!(class_contains(&ranges, Char::from('a')));
    assert!(class_contains(&ranges, Char::from('c')));
    assert!(class_contains(&ranges, Char::from('y')));
    assert!(!class_contains(&ranges, Char::from('d')));
    assert!(!class_contains(&ranges, Char::from('A')));
    assert!(!class_contains(&ranges, Char::input_bound()));
    assert!(!class_contains(&vec![], Char::from('a')));
    // Neighbours may touch.
    let touching = vec![(Char::from('a'), Char::from('c')), (Char::from('d'), Char::from('f'))];
    assert!(class_contains(&touching, Char::from('c')));
    assert!(class_contains(&touching, Char::from('d')));
    assert!(!class_contains(&touching, Char::from('g')));

    let vm = machine(vec![ConsumeClass(ranges.clone()), ConsumeOutlined(0), Accept], vec![ranges], 1);
    assert_eq!(run(&vm, Input::new("__by__"), 1), Some(vec![Span { from: 2, to: 4 }]));
    assert_eq!(run(&vm, Input::new("__b__"), 1), None);
}

#[test]
fn fork_prefers_its_first_target() {
    // a|ab, with the overall match only.
    let vm = machine(vec![Fork2(1, 3), c('a'), Jmp(5), c('a'), c('b'), Accept], vec![], 1);
    assert_eq!(run(&vm, Input::new("ab"), 1), Some(vec![Span { from: 0, to: 1 }]));
    let vm = machine(vec![Fork2(3, 1), c('a'), Jmp(5), c('a'), c('b'), Accept], vec![], 1);
    assert_eq!(run(&vm, Input::new("ab"), 1), Some(vec![Span { from: 0, to: 2 }]));
    // a|ab|abc
    let branches = |targets: Vec<usize>| {
        machine(
            vec![ForkN(targets), c('a'), Jmp(9), c('a'), c('b'), Jmp(9), c('a'), c('b'), c('c'), Accept],
            vec![],
            1,
        )
    };
    assert_eq!(run(&branches(vec![1, 3, 6]), Input::new("abc"), 1), Some(vec![Span { from: 0, to: 1 }]));
    assert_eq!(run(&branches(vec![3, 6, 1]), Input::new("abc"), 1), Some(vec![Span { from: 0, to: 2 }]));
    assert_eq!(run(&branches(vec![6, 3, 1]), Input::new("abc"), 1), Some(vec![Span { from: 0, to: 3 }]));
    assert_eq!(run(&branches(vec![6, 3, 1]), Input::new("abd"), 1), Some(vec![Span { from: 0, to: 2 }]));
    assert_eq!(run(&branches(vec![6, 3, 1]), Input::new("ad"), 1), Some(vec![Span { from: 0, to: 1 }]));
    assert_eq!(run(&branches(vec![6]), Input::new("ab"), 1), None);
    // Every branch keeps its own registers.
    let vm = machine(
        vec![ForkN(vec![1, 4, 7]), c('a'), c('b'), Jmp(8), c('a'), WriteReg(2), Jmp(8), c('a'), Accept],
        vec![],
        2,
    );
    assert_eq!(run(&vm, Input::new("ab"), 2), Some(vec![Span { from: 0, to: 2 }, Span::invalid()]));
    assert_eq!(run(&vm, Input::new("ac"), 2), Some(vec![Span { from: 0, to: 1 }, Span { from: 1, to: 0 }]));
}

#[test]
fn registers_record_the_position() {
    // (a)(b)?
    let vm = machine(
        vec![WriteReg(2), c('a'), WriteReg(3), Fork2(4, 7), WriteReg(4), c('b'), WriteReg(5), Accept],
        vec![],
        3,
    );
    assert_eq!(
        run(&vm, Input::new("xab"), 3),
        Some(vec![Span { from: 1, to: 3 }, Span { from: 1, to: 2 }, Span { from: 2, to: 3 }])
    );
    assert_eq!(
        run(&vm, Input::new("xa"), 3),
        Some(vec![Span { from: 1, to: 2 }, Span { from: 1, to: 2 }, Span::invalid()])
    );
}

#[test]
fn only_the_spans_asked_for_are_written() {
    let vm = machine(
        vec![WriteReg(2), c('a'), WriteReg(3), WriteReg(4), c('b'), WriteReg(5), Accept],
        vec![],
        3,
    );
    // Room for fewer spans than there are groups.
    assert_eq!(run(&vm, Input::new("ab"), 2), Some(vec![Span { from: 0, to: 2 }, Span { from: 0, to: 1 }]));
    assert_eq!(run(&vm, Input::new("ab"), 1), Some(vec![Span { from: 0, to: 2 }]));
    assert_eq!(run(&vm, Input::new("ab"), 0), Some(vec![]));
    // Room for more: what is beyond the groups stays as it was.
    let mut state = vm.new_state();
    let mut spans = vec![Span { from: 7, to: 8 }; 5];
    assert!(vm.exec(Input::new("ab"), &mut state, &mut spans));
    assert_eq!(
        spans,
        vec![
            Span { from: 0, to: 2 },
            Span { from: 0, to: 1 },
            Span { from: 1, to: 2 },
            Span { from: 7, to: 8 },
            Span { from: 7, to: 8 }
        ]
    );
    // Without a match nothing is written.
    let mut spans = vec![Span { from: 7, to: 8 }; 2];
    assert!(!vm.exec(Input::new("ba"), &mut state, &mut spans));
    assert_eq!(spans, vec![Span { from: 7, to: 8 }; 2]);
}

#[test]
fn a_machine_that_reports_no_group_writes_nothing() {
    let vm = machine(vec![c('a'), Accept], vec![], 0);
    let mut state = vm.new_state();
    let mut spans = vec![Span { from: 7, to: 8 }];
    assert!(vm.exec(Input::new("a"), &mut state, &mut spans));
    assert_eq!(spans, vec![Span { from: 7, to: 8 }]);
}

#[test]
fn assertions_look_at_the_characters_around() {
    let bound = Char::input_bound();
    let lf = Char::from('\n');
    let cr = Char::from('\r');
    let a = Char::from('a');
    assert!(look_matches(Anchor::Start, bound, a));
    assert!(!look_matches(Anchor::Start, lf, a));
    assert!(look_matches(Anchor::End, a, bound));
    assert!(!look_matches(Anchor::End, a, lf));
    assert!(look_matches(Anchor::StartLF, bound, a));
    assert!(look_matches(Anchor::StartLF, lf, a));
    assert!(!look_matches(Anchor::StartLF, cr, a));
    assert!(look_matches(Anchor::EndLF, a, bound));
    assert!(look_matches(Anchor::EndLF, a, lf));
    assert!(!look_matches(Anchor::EndLF, a, cr));
    assert!(look_matches(Anchor::StartCRLF, bound, a));
    assert!(look_matches(Anchor::StartCRLF, lf, a));
    assert!(look_matches(Anchor::StartCRLF, cr, a));
    assert!(!look_matches(Anchor::StartCRLF, cr, lf));
    assert!(!look_matches(Anchor::StartCRLF, a, a));
    assert!(look_matches(Anchor::EndCRLF, a, bound));
    assert!(look_matches(Anchor::EndCRLF, a, cr));
    assert!(look_matches(Anchor::EndCRLF, a, lf));
    assert!(!look_matches(Anchor::EndCRLF, cr, lf));
    assert!(!look_matches(Anchor::EndCRLF, a, a));

    let vm = machine(vec![Assertion(Anchor::Start), c('a'), Assertion(Anchor::End), Accept], vec![], 1);
    assert_eq!(run(&vm, Input::new("a"), 1), Some(vec![Span { from: 0, to: 1 }]));
    assert_eq!(run(&vm, Input::new("ab"), 1), None);
    assert_eq!(run(&vm, Input::new("ba"), 1), None);
}

#[test]
fn a_cycle_without_a_character_ends() {
    // A jump to itself, and a fork that only goes round.
    let vm = machine(vec![Jmp(0), Accept], vec![], 1);
    assert_eq!(run(&vm, Input::new("ab"), 1), None);
    let vm = machine(vec![Fork2(1, 2), Jmp(0), c('a'), Accept], vec![], 1);
    assert_eq!(run(&vm, Input::new("a"), 1), Some(vec![Span { from: 0, to: 1 }]));
    let vm = machine(vec![WriteReg(2), Fork2(0, 2), Accept], vec![], 2);
    assert_eq!(run(&vm, Input::new(""), 2), Some(vec![Span { from: 0, to: 0 }, Span { from: 0, to: 0 }]));
}

#[test]
fn a_state_serves_many_searches() {
    let a = PikeVM::new("(a+)(b*)", Config::default()).unwrap();
    let b = PikeVM::new("[xyz]{2}", Config::default()).unwrap();
    let mut state = a.new_state();
    for _ in 0..3 {
        let mut spans = vec![Span::invalid(); 3];
        assert!(a.exec(Input::new("caabd"), &mut state, &mut spans));
        assert_eq!(spans, vec![Span { from: 1, to: 4 }, Span { from: 1, to: 3 }, Span { from: 3, to: 4 }]);
        // The same state with another machine.
        let mut spans = vec![Span::invalid(); 1];
        assert!(b.exec(Input::new("axyz"), &mut state, &mut spans));
        assert_eq!(spans, vec![Span { from: 1, to: 3 }]);
        a.reset_state(&mut state);
        assert!(!a.exec(Input::new("xyz"), &mut state, &mut spans));
    }
}

#[test]
fn bytecode_tells_whether_it_can_be_run() {
    let ok = |instructions: Vec<Instruction>, barriers: Vec<bool>, classes: Vec<Vec<(Char, Char)>>| {
        Bytecode { instructions, barriers, outlined_classes: classes }.is_well_formed()
    };
    assert!(ok(vec![Accept], vec![false], vec![]));
    assert!(ok(vec![Fork2(1, 2), c('a'), Accept], vec![false, true, false], vec![]));
    assert!(ok(vec![ForkN(vec![1, 1]), ConsumeOutlined(0), Accept], vec![true, true, true], vec![vec![]]));
    // No instruction, no accept at the end, or not one flag for each instruction.
    assert!(!ok(vec![], vec![], vec![]));
    assert!(!ok(vec![Accept, Jmp(0)], vec![false, false], vec![]));
    assert!(!ok(vec![c('a'), Accept], vec![true], vec![]));
    // A target that is no instruction, a fork without targets, a class that is not in the table.
    assert!(!ok(vec![Jmp(2), Accept], vec![false, false], vec![]));
    assert!(!ok(vec![Fork2(0, 2), Accept], vec![false, false], vec![]));
    assert!(!ok(vec![ForkN(vec![1, 2]), Accept], vec![false, false], vec![]));
    assert!(!ok(vec![ForkN(vec![]), Accept], vec![false, false], vec![]));
    assert!(!ok(vec![ConsumeOutlined(0), Accept], vec![true, false], vec![]));
    // A class whose ranges are not sorted, inline or in the table.
    let a = Char::from('a');
    let b = Char::from('b');
    let z = Char::from('z');
    assert!(ok(vec![ConsumeClass(vec![(a, b), (z, z)]), Accept], vec![true, false], vec![]));
    assert!(!ok(vec![ConsumeClass(vec![(z, z), (a, b)]), Accept], vec![true, false], vec![]));
    assert!(!ok(vec![ConsumeClass(vec![(a, b), (b, z)]), Accept], vec![true, false], vec![]));
    assert!(!ok(vec![ConsumeClass(vec![(b, a)]), Accept], vec![true, false], vec![]));
    assert!(ok(vec![Accept], vec![false], vec![vec![(a, a), (b, z)]]));
    assert!(!ok(vec![Accept], vec![false], vec![vec![(a, a)], vec![(z, z), (a, b)]]));
    // An instruction that looks at the input without a barrier.
    assert!(!ok(vec![c('a'), Accept], vec![false, false], vec![]));
    assert!(!ok(vec![Assertion(Anchor::End), Accept], vec![false, false], vec![]));
    assert!(!ok(vec![ConsumeAny, Accept], vec![false, false], vec![]));

    assert!(Jmp(3).is_within(3, 0));
    assert!(!Jmp(4).is_within(3, 0));
    assert!(ForkN(vec![0, 3]).is_within(3, 0));
    assert!(!ForkN(vec![0, 4]).is_within(3, 0));
    assert!(ConsumeOutlined(1).is_within(0, 2));
    assert!(!ConsumeOutlined(2).is_within(0, 2));
    assert!(WriteReg(9).is_within(0, 0));
    assert!(c('a').tests_input() && ConsumeAny.tests_input() && Assertion(Anchor::Start).tests_input());
    assert!(!Jmp(0).tests_input() && !Accept.tests_input() && !WriteReg(0).tests_input());
}

#[test]
fn every_compiled_pattern_can_be_run() {
    for pattern in ["", "a", "(a|b)*c", "[a-z0-9_.+-]+@[a-z]+", "(?m)^a{2,5}?$", "(a)(b)?(c)*", "\\p{L}+"] {
        let hir = gregex::thompson::syntax::parse_pattern(pattern, Config::default()).unwrap();
        assert!(hir.is_well_formed());
        let code = gregex::thompson::bytecode::Compiler::compile(hir, Config::default()).unwrap();
        assert!(code.is_well_formed(), "pattern {:?}", pattern);
        assert_eq!(code.instructions.last(), Some(&Accept));
        assert_eq!(code.instructions.len(), code.barriers.len());
    }
}
