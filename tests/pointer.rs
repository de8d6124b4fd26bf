use std::fmt;

struct TestData {
    #[allow(dead_code)]
    s: String,
}

impl fmt::Pointer for TestData {
    fn fmt(&self, f: &mut fmt::Formatter<'_>) -> fmt::Result {
        let r: &Self = self;
        fmt::Pointer::fmt(&r, f)
    }
}

fn return_data() -> TestData {
    let d = TestData {
        s: "aaaa".to_string(),
    };
    println!("{:p}", d);
    d
}

#[test]
fn test_adress() {
    let d = return_data();
    println!("{:p}", d);
}
