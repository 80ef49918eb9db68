use chatgpt_translator::{Document, Error, RunStep};

fn drive<F>(doc: &Document, mut translate: F) -> Result<Vec<String>, Error>
where
    F: FnMut(&str) -> Result<Vec<String>, Error>,
{
    let mut step = doc.begin();
    loop {
        match step {
            RunStep::Translate(run) => {
                let outcome = translate(doc.fragment(&run));
                step = doc.advance(run, outcome);
            }
            RunStep::Finished(out) => return Ok(out),
            RunStep::Failed(e) => return Err(e),
        }
    }
}

#[test]
fn document_from_text() {
    let d = Document::try_from("# A\ntext1\n## B\ntext2".to_string()).unwrap();
    assert_eq!(d.fragments, vec!["# A\ntext1".to_string(), "## B\ntext2".to_string()]);
    assert!(matches!(Document::try_from(String::new()), Err(Error::EmptyInput)));
}

#[test]
fn run_output_is_aligned_with_fragments() {
    let d = Document::try_from("pre\n# A\na\n## B\nb\n### C\nc".to_string()).unwrap();
    let out = drive(&d, |f| Ok(vec![format!("<T:{}>", f)])).unwrap();
    assert_eq!(out.len(), d.fragments.len());
    for (i, f) in d.fragments.iter().enumerate() {
        assert_eq!(out[i], format!("<T:{}>", f));
    }
}

#[test]
fn run_flattens_replies_in_order() {
    let d = Document { fragments: vec!["x".to_string(), "y".to_string()] };
    let out = drive(&d, |f| {
        if f == "x" {
            Ok(vec!["1".to_string(), "2".to_string()])
        } else {
            Ok(vec![])
        }
    })
    .unwrap();
    assert_eq!(out, vec!["1".to_string(), "2".to_string()]);
}

#[test]
fn run_stops_at_first_failure() {
    let d = Document {
        fragments: vec!["a".to_string(), "b".to_string(), "c".to_string(), "d".to_string()],
    };
    let mut calls: Vec<String> = Vec::new();
    let r = drive(&d, |f| {
        calls.push(f.to_string());
        if f == "b" {
            Err(Error::Translation("quota".to_string()))
        } else {
            Ok(vec![f.to_uppercase()])
        }
    });
    match r {
        Err(Error::Translation(m)) => assert_eq!(m, "quota"),
        other => panic!("unexpected: {:?}", other),
    }
    assert_eq!(calls, vec!["a".to_string(), "b".to_string()]);
}

#[test]
fn empty_document_finishes_at_once() {
    let d = Document { fragments: vec![] };
    assert!(matches!(d.begin(), RunStep::Finished(v) if v.is_empty()));
}

#[test]
fn advance_names_the_next_fragment() {
    let d = Document { fragments: vec!["a".to_string(), "b".to_string()] };
    let run = match d.begin() {
        RunStep::Translate(run) => run,
        _ => panic!("expected a request"),
    };
    assert_eq!(run.next, 0);
    match d.advance(run, Ok(vec!["A".to_string()])) {
        RunStep::Translate(run) => {
            assert_eq!(run.next, 1);
            assert_eq!(d.fragment(&run), "b");
            assert_eq!(run.output, vec!["A".to_string()]);
        }
        _ => panic!("expected a request"),
    }
}
