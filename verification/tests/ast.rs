use laidout::brute;
use laidout::corpus::ast::{asymmetric_file, sample_file, Field, File, Formatter, FuncDecl, Import};
use laidout::cost::{ConsumerCost, OverflowThenHeight};
use laidout::doc::count_choices;
use laidout::frontier;
use laidout::greedy;
use laidout::research::to_string;

#[test]
fn sample_matches_the_documented_go_like_shape() {
    let doc = Formatter::default().format_file(&sample_file());
    let best = frontier::best(&OverflowThenHeight { width: 100 }, &doc).unwrap();
    assert_eq!(
        to_string(&best.out),
        [
            "package main\n",
            "\n",
            "import (\n",
            "    \"fmt\"\n",
            "    \"strings\"\n",
            "\n",
            "    json \"encoding/json\"\n",
            "    \"encoding/xml\"\n",
            ")\n",
            "\n",
            "func (p Processor) processData(data []byte, options *Options) ",
            "(result ProcessResult, err error) {\n",
            "    // ... formatted statements\n",
            "}"
        ]
        .concat()
    );
}

#[test]
fn asymmetric_signature_is_a_strict_frontier_win() {
    let doc = Formatter::default().format_file(&asymmetric_file());
    let cm = OverflowThenHeight { width: 18 };
    let greedy = greedy::layout(&cm, &doc, 18).unwrap();
    let best = frontier::best(&cm, &doc).unwrap();
    let oracle = brute::best(&cm, &doc, count_choices(&doc)).unwrap();

    assert_eq!(greedy.cost, ConsumerCost { overflow: 0, burden: 10 });
    assert_eq!(best.cost, ConsumerCost { overflow: 0, burden: 7 });
    assert!(best.cost < greedy.cost);
    assert_eq!(best.cost, oracle.cost);
    assert_eq!(
        to_string(&best.out),
        [
            "package p\n",
            "\n",
            "func f(a A, b B) (\n",
            "    x XXXX,\n",
            "    y YYYY\n",
            ") {\n",
            "    work()\n",
            "}"
        ]
        .concat()
    );
}

#[test]
fn a_single_import_stays_on_the_package_line_block() {
    let file = File {
        package: "q".to_owned(),
        imports: vec![Import::new("os")],
        declarations: vec![],
    };
    let doc = Formatter { indent: 2 }.format_file(&file);
    let best = frontier::best(&OverflowThenHeight { width: 80 }, &doc).unwrap();
    assert_eq!(to_string(&best.out), "package q\n\nimport \"os\"");
}

#[test]
fn string_literals_use_default_escapes() {
    let file = File {
        package: "q".to_owned(),
        imports: vec![Import::named("x", "a\"b\\c\té")],
        declarations: vec![],
    };
    let doc = Formatter::default().format_file(&file);
    let best = frontier::best(&OverflowThenHeight { width: 80 }, &doc).unwrap();
    assert_eq!(to_string(&best.out), "package q\n\nimport x \"a\\\"b\\\\c\\t\\u{e9}\"");
}

#[test]
fn an_empty_body_closes_on_the_signature_line() {
    let file = File {
        package: "q".to_owned(),
        imports: vec![],
        declarations: vec![FuncDecl {
            name: "g".to_owned(),
            receiver: None,
            params: vec![],
            results: vec![Field::unnamed("int")],
            body: vec![],
        }],
    };
    let doc = Formatter::default().format_file(&file);
    let best = frontier::best(&OverflowThenHeight { width: 80 }, &doc).unwrap();
    assert_eq!(to_string(&best.out), "package q\n\nfunc g() int {}");
}
