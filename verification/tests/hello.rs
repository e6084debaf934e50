use vtt::hello::Hello;

#[test]
fn hello_says_hello() {
    let hello = Hello::new("pal");
    assert_eq!(hello.say_hi(), "Hello pal");
}
