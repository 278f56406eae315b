//! The samples of the guide to Rust that the site publishes as a literate
//! source, and the guide's opening as the converter reads it.

use website::post::build;
use website::rs2md::from_rs;

#[test]
fn hello_world() {           // This is a function
  println!("Hello, world!"); // Run with cargo t -- --nocapture to see output
  assert_eq!(1, 1);          // Asserts that the left and right values are equal

  // Ordering of assertion values is not important
  let left = "value";  // When values don't match it'll output the "left" and
  let right = "value"; // "right" values so it's easy to identify which is which.
  assert_eq!(left, right);
}

#[test]
fn variables() {
  let x = 2;                    // An immutable variable
  let mut y = 5;                // A mutable variable
  y += x;
  assert_eq!(y, 7);

  const A_CONST: f32 = 1.2;     // Constants cannot be marked as `mut`able, must
                                // have a type, can be declared in any scope and
                                // may only be set to a constant expression.
  let z = 1.2;
  assert_eq!(A_CONST, z);

}

#[test]
fn variable_shadowing() {
  let a = 1;
  assert_eq!(a, 1);
  let a = 2;                    // Second declaration shadows the first
  assert_eq!(a, 2);             // Useful for reusing names.
}

#[test]
fn basic_types() {
  // isize and usize are architecture-dependent and used for collection indexing.
  let int8: i8 = -1;       // Signed integers are i8, i16, i32, i64, i128, isize
  let unsigned8: u8 = 255; // Unsigned integers are u8, u16, u32, u64, u128, usize
  let float32 = 1.0;       // Floats f32 by default
  let float64: f64 = 1.0;
  let default32 = 1;       // Default type is i32
  let ch = 'a';            // char type, supports ASCII and Unicode
  let imoji = '😻';        // A unicode char type
  let t = true;            // Boolean type
  let f: bool = false;     // Boolean type with explicit type
  let unit = ();           // The unit type another one pulled from functional languages

  assert_eq!(int8, -1);
  assert_eq!(unsigned8, 255);
  assert!((float64 - float32).abs() < f64::EPSILON); // Roughly equal
  assert_eq!(default32, 1);
  assert_eq!(ch, 'a');
  assert_eq!(imoji, '😻');
  assert!(t);
  assert!(!f);
  assert_eq!(unit, ());

  let tuple = (1, "hello", 3);      // Tuples can contain any type
  let (one, hello, three) = tuple;  // They can be destructured like so

  assert_eq!(one, 1);
  assert_eq!(hello, "hello");
  assert_eq!(three, 3);
  assert_eq!("hello", tuple.1);   // Or accessed by index

  assert_eq!(0xff, 255);          // Hexadecimal literals are prefixed with 0x
  assert_eq!(0o77, 63);           // Octal literals are prefixed with 0o
  assert_eq!(0b1111_1111, 255);   // Binary literals are prefixed with 0b
  assert_eq!(b'A', 65);           // Byte literals are prefixed with b
  assert_eq!(1_000_000, 1000000); // Underscores can be used for clarity

  // Note: Overflow checks are not done in release builds.
}

#[test]
fn operators() {
  assert_eq!(1 + 1, 2);           // Addition
  assert_eq!(3 - 1, 2);           // Subtraction
  assert_eq!(2 * 3, 6);           // Multiplication
  assert_eq!(6 / 2, 3);           // Division
  assert_eq!(6 % 2, 0);           // Remainder/Modulo
}

#[test]
fn strings() {
  let str: &str = "Hello this is a str type"; // fixed size, immutable, borrowed reference
  let string: String = str.to_string().replace("str", "String"); // Heap allocated, mutable, growable, owned

  assert_eq!(str, "Hello this is a str type");
  assert_eq!(string, "Hello this is a String type");

  assert_eq!(&str[..5], "Hello");   // Slices are a way to get a reference to a part of a string
  assert_eq!(&string[..5], "Hello");
}

#[test]
fn arrays() {
  let a = [1, 2, 3];              // Arrays are fixed-size, same-type values
  assert_eq!(a[1], 2);

  let b: [i32; 3] = [1, 2, 3];    // Array type can be specified
  assert_eq!(b[1], 2);

  let c = [3; 5];                 // Array with a fixed size can be initialized
  assert_eq!(c, [3, 3, 3, 3, 3]);

  // Array slices can be created with from_index..to_index same as string slices
  assert_eq!(c[2..4], [3, 3]);
}

fn conditional_msg(value: u32) -> &'static str {
  if value < 5 {
    "less than 5"
  } else {
    "greater than 5"
  }
}

struct Rect {
  width: u32,
  height: u32,
}

impl Rect {
  fn new(width: u32, height: u32) -> Self {
    Self { width, height } // Shorthand for Self { width: width, height: height }
  }

  fn square(size: u32) -> Self {
    Self { width: size, height: size }
  }

  fn area(&self) -> u32 {
    self.width * self.height
  }
}

#[test]
fn structs() {
  let rect = Rect::new(10, 20);

  assert_eq!(rect.width, 10);
  assert_eq!(rect.height, 20);
  assert_eq!(rect.area(), 200);

  let square = Rect::square(10);
  assert_eq!(square.width, 10);
  assert_eq!(square.height, 10);
  assert_eq!(square.area(), 100);
}

enum Message {
  Quit,
  Move { x: i32, y: i32 },
  Write(String),
  ChangeColor(i32, i32, i32),
}

fn which_enum(msg: Message) -> String {
  match msg {
    Message::Quit => "Quit".to_string(),
    Message::Move { x, y } => format!("Move {} {}", x, y),
    Message::Write(text) => format!("Write {}", text),
    Message::ChangeColor(r, g, b) => format!("ChangeColor {} {} {}", r, g, b),
    // _ => "Some other value", // Use this if you don't want to handle all values
  }
}

#[test]
fn enums() {
  assert_eq!(which_enum(Message::Write(String::from("Hello"))), "Write Hello");
  assert_eq!(which_enum(Message::Move { x: 1, y: 2 }), "Move 1 2");
  assert_eq!(which_enum(Message::ChangeColor(1, 2, 3)), "ChangeColor 1 2 3");
  assert_eq!(which_enum(Message::Quit), "Quit");

  let msg = Message::Write(String::from("Hello"));
  assert!(matches!(msg, Message::Write(_)));
}

type MyPoint = (i32, i32);
enum VeryLongEnumNameForDoingStuffWithNumbers { Add, Subtract }
type Operations = VeryLongEnumNameForDoingStuffWithNumbers;

#[test]
fn type_aliases() {
  let p: MyPoint = (1, 2);
  assert_eq!(p, (1, 2));

  assert!(matches!(Operations::Add, VeryLongEnumNameForDoingStuffWithNumbers::Add));
}

#[test]
fn control_flow() {
  // if expressions
  assert_eq!("less than 5", conditional_msg(4));    // function from above
  assert_eq!("greater than 5", conditional_msg(7));

  let mut x = if true { 1 } else { 2 }; // If expressions
  assert_eq!(x, 1);

  // loop
  let result = loop {               // Loop forever!
    if x < 2 { x += 1; continue; }  // Skip to the next iteration
    break x;                        // Let's break out of the loop
  };
  assert_eq!(result, 2);

  // while
  let mut number = 5;
  while number != 0 {
    number -= 1;
  }
  assert_eq!(number, 0);

  // match
  let value = 4;
  let result =
    match value {
      1 => "One!",
      2 | 3 => "Two or three!",
      a if a < 10 => "Single digit",
      _ => "Some other value",
    };
  assert_eq!(result, "Single digit");
}

trait Greet {
  fn greet(&self) -> String {
    "Hello!".to_string()  // Default implementation
  }
}

struct Person {
  name: String,
}

impl Greet for Person {
  fn greet(&self) -> String {
    format!("Hello, I'm {}!", self.name)  // Override the default
  }
}

struct Robot;

impl Greet for Robot {
  // Uses default implementation - no override needed
}

#[test]
fn trait_defaults() {
  let person = Person { name: "Alice".to_string() };
  assert_eq!(person.greet(), "Hello, I'm Alice!");

  let robot = Robot;
  assert_eq!(robot.greet(), "Hello!");
}

#[derive(Copy, Clone)]
#[derive(Debug, PartialEq)]
struct Point {
  x: i32,
  y: i32,
}

#[test]
fn borrowing() {
  let p1 = Point { x: 1, y: 2 };
  let p2 = p1; // p1 is copied to p2 and both are still valid


  assert_eq!(p1, Point {x: 1, y: 2});
  assert_eq!(p2, Point {x: 1, y: 2});

  let s = String::from("Hello");
  let r1 = &s;  // Immutable reference to s
  let r2 = &s;  // Second immutable reference to s OK
  //let r3 = &mut s; // Cannot borrow as mutable because there are immutable references

  assert_eq!(r1, "Hello");
  assert_eq!(r2, "Hello");

  let mut s2 = String::from("There"); // Needs to be mutable to borrow as mutable
  let r3 = &mut s2;                   // No other references to so mutable borrow is OK
  assert_eq!(r3, "There");

  *r3 = String::from("World");
  assert_eq!(r3, "World");
}

fn do_something_with(list: &[i32], closure: impl Fn(i32) -> i32) -> Vec<i32>{
  list.iter().map(|&x| closure(x)).collect()
}


#[test]
fn basic_closure() {
  let outer_var = 42;
  let closure = |i| outer_var + i; // This can be passed elsewhere and subsequently called

  assert_eq!(do_something_with(&[1, 2, 3], closure), &[43, 44, 45]);
}

#[test]
fn closures() {
  let mut haystack = vec![1, 2];
  haystack.push(3);
  let contains = move |needle| haystack.contains(needle);

  // haystack is now owned by the closure and cannot be used outside of it

  assert!(contains(&1));
  assert!(!contains(&4));
}

#[test]
fn iterators() {
  let nums = vec![1, 2, 3, 4, 5];

  // map: transform each element
  let doubled: Vec<i32> = nums.iter().map(|x| x * 2).collect();
  assert_eq!(doubled, vec![2, 4, 6, 8, 10]);

  // filter: keep only elements that match a condition
  let evens: Vec<i32> = nums.iter().filter(|&&x| x % 2 == 0).copied().collect();
  assert_eq!(evens, vec![2, 4]);

  // Chaining: combine multiple operations
  let result: Vec<i32> = nums.iter()
    .filter(|&&x| x > 2)
    .map(|x| x * 10)
    .collect();
  assert_eq!(result, vec![30, 40, 50]);

  // fold: reduce to a single value
  let sum: i32 = nums.iter().fold(0, |acc, x| acc + x);
  assert_eq!(sum, 15);

  // enumerate: get index with each element
  let indexed: Vec<(usize, i32)> = nums.iter().copied().enumerate().collect();
  assert_eq!(indexed, vec![(0, 1), (1, 2), (2, 3), (3, 4), (4, 5)]);

  // for loops use iterators under the hood
  let mut total = 0;
  for n in nums.iter() {
    total += n;
  }
  assert_eq!(total, 15);
}

#[test]
fn more_iterators() {
  let nums = vec![1, 2, 3, 4, 5];

  // take: get first n elements
  let first_three: Vec<i32> = nums.iter().take(3).copied().collect();
  assert_eq!(first_three, vec![1, 2, 3]);

  // skip: skip first n elements
  let skip_two: Vec<i32> = nums.iter().skip(2).copied().collect();
  assert_eq!(skip_two, vec![3, 4, 5]);

  // zip: combine two iterators
  let letters = vec!['a', 'b', 'c'];
  let paired: Vec<(i32, char)> = nums.iter().copied().zip(letters.iter().copied()).collect();
  assert_eq!(paired, vec![(1, 'a'), (2, 'b'), (3, 'c')]);

  // any: check if any element matches
  assert!(nums.iter().any(|&x| x > 4));
  assert!(!nums.iter().any(|&x| x > 10));

  // all: check if all elements match
  assert!(nums.iter().all(|&x| x > 0));
  assert!(!nums.iter().all(|&x| x > 2));

  // find: get first element matching condition
  assert_eq!(nums.iter().find(|&&x| x > 3), Some(&4));
  assert_eq!(nums.iter().find(|&&x| x > 10), None);
}

const GUIDE: &str = r#"/**
mmd header: {{../templates/header.html}}
mmd footer: {{../templates/footer.html}}
css: /css/main.css
tags: rust

# Rust: A Test Driven Guide

A tour of Rust for the experienced programmer driven by tests.
We're all writing tests, right?!

#### Contents
{{TOC:2-3}}

## Attributes

The `#[test]` *attribute* marks a function as a test.
*/
#[test]
fn hello_world() {
  assert_eq!(1, 1);
}

/**
## Variables

Variables are immutable by default. Use `mut` to make them mutable.
*/

#[test]
fn variables() {
  let x = 2;
}

/**
## Basic Types

[Docs](https://doc.rust-lang.org/book/ch03-02-data-types.html)

*/
"#;

const GUIDE_MARKUP: &str = r#"mmd header: {{../templates/header.html}}
mmd footer: {{../templates/footer.html}}
css: /css/main.css
tags: rust

# Rust: A Test Driven Guide

A tour of Rust for the experienced programmer driven by tests.
We're all writing tests, right?!

#### Contents
{{TOC:2-3}}

## Attributes

The `#[test]` *attribute* marks a function as a test.
```rust
#[test]
fn hello_world() {
  assert_eq!(1, 1);
}
```

## Variables

Variables are immutable by default. Use `mut` to make them mutable.

```rust
#[test]
fn variables() {
  let x = 2;
}
```

## Basic Types

[Docs](https://doc.rust-lang.org/book/ch03-02-data-types.html)

"#;

#[test]
fn the_guide_is_converted_to_markup() {
  assert_eq!(from_rs(GUIDE), GUIDE_MARKUP);
}

#[test]
fn the_guide_tells_its_title_tags_and_excerpt() {
  let post = build("draft-rust-a-test-driven-guide.rs", &from_rs(GUIDE)).unwrap();
  assert_eq!(post.name, "draft-rust-a-test-driven-guide");
  assert_eq!(post.title, "Rust: A Test Driven Guide");
  assert_eq!(post.created, "draft");
  assert_eq!(post.updated, "");
  assert_eq!(post.tags, "rust");
  assert_eq!(
    post.intro,
    "A tour of Rust for the experienced programmer driven by tests.\nWe're all writing tests, right?!\n"
  );
}
