use coreutils::executor::Job;
use coreutils::io::{InputArg, OutputArg};
use std::cell::Cell;
use std::rc::Rc;

struct CountJob {
    hits: Rc<Cell<u32>>,
    amount: u32,
}

impl Job for CountJob {
    fn run(self) {
        self.hits.set(self.hits.get() + self.amount);
    }
}

#[test]
fn jobs_run_their_side_effect() {
    let hits = Rc::new(Cell::new(0));
    let a = CountJob { hits: hits.clone(), amount: 2 };
    let b = CountJob { hits: hits.clone(), amount: 3 };
    a.run();
    b.run();
    assert_eq!(hits.get(), 5);
}

#[test]
fn input_args_resolve_names() {
    let args = vec![InputArg::Stdin, InputArg::File(String::from("notes.txt"))];
    assert_eq!(args[0], InputArg::Stdin);
    match &args[1] {
        InputArg::File(name) => assert_eq!(name, "notes.txt"),
        InputArg::Stdin => unreachable!(),
    }
}

#[test]
fn output_args_carry_append_mode() {
    let out = OutputArg::File(String::from("log.txt"), true);
    match out {
        OutputArg::File(name, append) => {
            assert_eq!(name, "log.txt");
            assert!(append);
        },
        OutputArg::Stdout => unreachable!(),
    }
}
