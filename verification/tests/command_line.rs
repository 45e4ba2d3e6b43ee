use wordcount::{count_buf, format_summary, interpret_args, BufferDetails, Invocation, Mode};

fn args(tokens: &[&str]) -> Vec<String> {
    tokens.iter().map(|t| t.to_string()).collect()
}

fn names(tokens: &[&str]) -> Vec<Option<String>> {
    tokens.iter().map(|t| Some(t.to_string())).collect()
}

#[test]
fn no_arguments_mean_default_modes_and_standard_input() {
    let invocation = interpret_args(&args(&[]));
    assert_eq!(invocation.modes, vec![Mode::Lines, Mode::Words, Mode::Bytes]);
    assert_eq!(invocation.sources, vec![None]);
}

#[test]
fn default_modes_leave_characters_out() {
    let invocation = interpret_args(&args(&["a.txt"]));
    assert!(!invocation.modes.contains(&Mode::Chars));
    assert_eq!(invocation.modes.len(), 3);
}

#[test]
fn flags_and_files_are_told_apart() {
    let invocation = interpret_args(&args(&["-l", "a.txt", "-c", "b.txt"]));
    assert_eq!(
        invocation,
        Invocation { modes: vec![Mode::Lines, Mode::Bytes], sources: names(&["a.txt", "b.txt"]) }
    );
}

#[test]
fn flags_keep_their_order_and_repetitions() {
    let invocation = interpret_args(&args(&["-c", "-l", "-c", "-m", "-w"]));
    assert_eq!(
        invocation.modes,
        vec![Mode::Bytes, Mode::Lines, Mode::Bytes, Mode::Chars, Mode::Words]
    );
    assert_eq!(invocation.sources, vec![None]);
}

#[test]
fn flags_given_without_files_read_standard_input() {
    let invocation = interpret_args(&args(&["-m"]));
    assert_eq!(invocation, Invocation { modes: vec![Mode::Chars], sources: vec![None] });
}

#[test]
fn unknown_flags_are_file_names() {
    let invocation = interpret_args(&args(&["-x", "--lines", "-lw", "-", ""]));
    assert_eq!(invocation.modes, vec![Mode::Lines, Mode::Words, Mode::Bytes]);
    assert_eq!(invocation.sources, names(&["-x", "--lines", "-lw", "-", ""]));
}

#[test]
fn files_keep_their_order_and_repetitions() {
    let invocation = interpret_args(&args(&["b", "a", "-w", "b"]));
    assert_eq!(invocation.modes, vec![Mode::Words]);
    assert_eq!(invocation.sources, names(&["b", "a", "b"]));
}

#[test]
fn flags_in_any_order_give_the_same_report() {
    let forward = interpret_args(&args(&["-l", "-c", "a"]));
    let backward = interpret_args(&args(&["a", "-c", "-l"]));
    let report = |invocation: Invocation| {
        let counted = count_buf(BufferDetails {
            filename: invocation.sources[0].clone(),
            buffer: b"hi\nthere\n".to_vec(),
        })
        .unwrap();
        format_summary(vec![counted], invocation.modes)
    };
    assert_eq!(report(forward), "2 9 a");
    assert_eq!(report(backward), "2 9 a");
}

#[test]
fn standard_input_with_default_flags_end_to_end() {
    let invocation = interpret_args(&args(&[]));
    let counted = count_buf(BufferDetails {
        filename: invocation.sources[0].clone(),
        buffer: b"foo bar\nbaz\n".to_vec(),
    })
    .unwrap();
    assert_eq!((counted.lines, counted.words, counted.bytes), (2, 3, 12));
    assert_eq!(format_summary(vec![counted], invocation.modes), " 2  3 12 ");
}

#[test]
fn two_files_with_line_and_byte_flags_end_to_end() {
    let invocation = interpret_args(&args(&["-l", "-c", "a", "b"]));
    let contents: [&[u8]; 2] = [b"hi\n", b"there\n"];
    let mut results = Vec::new();
    for (source, content) in invocation.sources.iter().zip(contents) {
        results.push(
            count_buf(BufferDetails { filename: source.clone(), buffer: content.to_vec() }).unwrap(),
        );
    }
    let report = format_summary(results, invocation.modes);
    let rows: Vec<&str> = report.split('\n').collect();
    assert_eq!(rows, vec!["1 3 a", "1 6 b", "2 9 Total"]);
}
