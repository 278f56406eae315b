use website::rust_to_markdown::code_to_markdown;

#[test]
fn rust_to_markdown_comment_block_is_converted_to_markdown() {
    let input = r#"/*
# A Heading
This is a function.

Plus some other information.
*/

fn a_function() {
  println!("Hello, world!");
}

/*
## A Subheading
Some more text.
*/
"#;

  let expected = r#"# A Heading
This is a function.

Plus some other information.

```rust
fn a_function() {
  println!("Hello, world!");
}
```

## A Subheading
Some more text.
"#;
    let output = code_to_markdown(input);
    assert_eq!(expected.to_string(), output);

}

#[test]
fn code_to_markdown_takes_a_doc_comment_for_code() {
    let input = "/*\nprose\n*/\ncode\n/**\nmore code\n/*\nprose again\n*/\n";
    let expected = "prose\n```rust\ncode\n/**\nmore code\n```\nprose again\n";
    assert_eq!(code_to_markdown(input), expected);
}
