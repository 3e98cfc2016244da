//! The clock.

use vsfs::utils::time;

#[test]
fn test_time() {
    let t = time();
    println!("epoch seconds: {}", t);
    let t2 = time();
    assert!(t2 >= t);
}
