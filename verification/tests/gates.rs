use hack::given::{nand, int2word, word2int, Flipflop};
use hack::gate::{
    not, and, or, xor, mux, dmux, or8way, mux4way16, mux8way16, dmux4way, dmux8way,
};
use hack::adder::{half_adder, full_adder, add16, inc16};
use hack::alu::alu;

#[test]
fn given_test_nand() {
    assert_eq!(nand(false, false), true);
    assert_eq!(nand(true, false), true);
    assert_eq!(nand(false, true), true);
    assert_eq!(nand(true, true), false);
}

#[test]
fn test_flipflop() {
    let mut flipflop = Flipflop::new();
    assert_eq!(flipflop.out(), false);
    flipflop.clock(true);
    assert_eq!(flipflop.out(), true);
    flipflop.clock(true);
    assert_eq!(flipflop.out(), true);
    flipflop.clock(false);
    assert_eq!(flipflop.out(), false);
    flipflop.clock(true);
    assert_eq!(flipflop.out(), true);
    flipflop.clock(false);
    assert_eq!(flipflop.out(), false);
}

#[test]
fn gate_test_nand() {
    assert_eq!(nand(false, false), true);
    assert_eq!(nand(true, false), true);
    assert_eq!(nand(false, true), true);
    assert_eq!(nand(true, true), false);
}

#[test]
fn gate_test_not() {
    assert_eq!(not(true), false);
    assert_eq!(not(false), true);
}

#[test]
fn gate_test_and() {
    assert_eq!(and(false, false), false);
    assert_eq!(and(true, false), false);
    assert_eq!(and(false, true), false);
    assert_eq!(and(true, true), true);
}

#[test]
fn gate_test_or() {
    assert_eq!(or(false, false), false);
    assert_eq!(or(true, false), true);
    assert_eq!(or(false, true), true);
    assert_eq!(or(true, true), true);
}

#[test]
fn gate_test_xor() {
    assert_eq!(xor(false, false), false);
    assert_eq!(xor(true, false), true);
    assert_eq!(xor(false, true), true);
    assert_eq!(xor(true, true), false);
}

#[test]
fn gate_test_mux() {
    let bits = [false, true];
    for &sel in &bits {
        for &a in &bits {
            for &b in &bits {
                assert_eq!(mux(a, b, sel), if sel { b } else { a });
            }
        }
    }
}

#[test]
fn gate_test_dmux() {
    let bits = [false, true];
    for &sel in &bits {
        for &x in &bits {
            assert_eq!(dmux(x, sel), if sel { [false, x] } else { [x, false] })
        }
    }
}

#[test]
fn gate_test_or8way() {
    let bits = [false, true];
    for &a0 in &bits {
        for &a1 in &bits {
            for &a2 in &bits {
                for &a3 in &bits {
                    for &a4 in &bits {
                        for &a5 in &bits {
                            for &a6 in &bits {
                                for &a7 in &bits {
                                    assert_eq!(
                                        or8way([a0, a1, a2, a3, a4, a5, a6, a7]),
                                        a0 || a1 || a2 || a3 || a4 || a5 || a6 || a7
                                    );
                                }
                            }
                        }
                    }
                }
            }
        }
    }
}

#[test]
fn gate_test_mux4way16() {
    let a = int2word(1);
    let b = int2word(2);
    let c = int2word(3);
    let d = int2word(4);
    for &sel0 in &[false, true] {
        for &sel1 in &[false, true] {
            let expected = match (sel0, sel1) {
                (false, false) => a,
                (true, false) => b,
                (false, true) => c,
                (true, true) => d,
            };
            assert_eq!(mux4way16(a, b, c, d, [sel0, sel1]), expected);
        }
    }
}

#[test]
fn gate_test_mux8way16() {
    let a = int2word(1);
    let b = int2word(2);
    let c = int2word(3);
    let d = int2word(4);
    let e = int2word(5);
    let f = int2word(6);
    let g = int2word(7);
    let h = int2word(8);
    for &sel0 in &[false, true] {
        for &sel1 in &[false, true] {
            for &sel2 in &[false, true] {
                let expected = match (sel0, sel1, sel2) {
                    (false, false, false) => a,
                    (true, false, false) => b,
                    (false, true, false) => c,
                    (true, true, false) => d,
                    (false, false, true) => e,
                    (true, false, true) => f,
                    (false, true, true) => g,
                    (true, true, true) => h,
                };
                assert_eq!(mux8way16(a, b, c, d, e, f, g, h, [sel0, sel1, sel2]), expected);
            }
        }
    }
}

#[test]
fn gate_test_dmux4way() {
    for &input in &[false, true] {
        for &sel0 in &[false, true] {
            for &sel1 in &[false, true] {
                let expected = match (sel0, sel1) {
                    (false, false) => [input, false, false, false],
                    (true, false) => [false, input, false, false],
                    (false, true) => [false, false, input, false],
                    (true, true) => [false, false, false, input],
                };
                assert_eq!(dmux4way(input, [sel0, sel1]), expected);
            }
        }
    }
}

#[test]
fn gate_test_dmux8way() {
    for &input in &[false, true] {
        for &sel0 in &[false, true] {
            for &sel1 in &[false, true] {
                for &sel2 in &[false, true] {
                    let expected = match (sel0, sel1, sel2) {
                        (false, false, false) => [input, false, false, false, false, false, false, false],
                        (true, false, false) => [false, input, false, false, false, false, false, false],
                        (false, true, false) => [false, false, input, false, false, false, false, false],
                        (true, true, false) => [false, false, false, input, false, false, false, false],
                        (false, false, true) => [false, false, false, false, input, false, false, false],
                        (true, false, true) => [false, false, false, false, false, input, false, false],
                        (false, true, true) => [false, false, false, false, false, false, input, false],
                        (true, true, true) => [false, false, false, false, false, false, false, input],
                    };
                    assert_eq!(dmux8way(input, [sel0, sel1, sel2]), expected);
                }
            }
        }
    }
}

#[test]
fn adder_test_half_adder() {
    assert_eq!(half_adder(false, false), [false, false]);
    assert_eq!(half_adder(true, false), [true, false]);
    assert_eq!(half_adder(false, true), [true, false]);
    assert_eq!(half_adder(true, true), [false, true]);
}

#[test]
fn adder_test_full_adder() {
    assert_eq!(full_adder(false, false, false), [false, false]);
    assert_eq!(full_adder(true, false, false), [true, false]);
    assert_eq!(full_adder(false, true, false), [true, false]);
    assert_eq!(full_adder(true, true, false), [false, true]);

    assert_eq!(full_adder(false, false, true), [true, false]);
    assert_eq!(full_adder(true, false, true), [false, true]);
    assert_eq!(full_adder(false, true, true), [false, true]);
    assert_eq!(full_adder(true, true, true), [true, true]);
}

#[test]
fn adder_test_add16() {
    assert_eq!(add16(int2word(0), int2word(0)), int2word(0));
    assert_eq!(add16(int2word(123), int2word(456)), int2word(579));
    let nums = [1, 2, 100, 3722, 2984, 25, 74];
    for &n in &nums {
        for &m in &nums {
            assert_eq!(add16(int2word(n), int2word(m)), int2word(n + m));
        }
    }
}

#[test]
fn adder_test_inc16() {
    let nums = [1, 2, 100, 3722, 2984, 25, 74];
    for &n in &nums {
        assert_eq!(word2int(inc16(int2word(n))), n + 1);
    }
}

fn assert_alu(x: i16, y: i16, zx: i8, nx: i8, zy: i8, ny: i8, f: i8, no: i8, expected: i16) {
    let wx = int2word(x);
    let wy = int2word(y);
    let result = alu(wx, wy, zx != 0, nx != 0, zy != 0, ny != 0, f != 0, no != 0);
    assert_eq!(word2int(result.out), expected);
    assert_eq!(result.zr, expected == 0);
    assert_eq!(result.ng, expected < 0);
}

#[test]
fn test_alu() {
    let data = [73, 61, 973, 294, 429];
    for &x in &data {
        for &y in &data {
            assert_alu(x, y, 1, 0, 1, 0, 1, 0, 0);
            assert_alu(x, y, 1, 1, 1, 1, 1, 1, 1);
            assert_alu(x, y, 1, 1, 1, 0, 1, 0, -1);
            assert_alu(x, y, 0, 0, 1, 1, 0, 0, x);
            assert_alu(x, y, 0, 0, 1, 1, 0, 1, !x);
            assert_alu(x, y, 1, 1, 0, 0, 0, 0, y);
            assert_alu(x, y, 1, 1, 0, 0, 0, 1, !y);
            assert_alu(x, y, 0, 0, 1, 1, 1, 1, -x);
            assert_alu(x, y, 1, 1, 0, 0, 1, 1, -y);
            assert_alu(x, y, 0, 1, 1, 1, 1, 1, x + 1);
            assert_alu(x, y, 1, 1, 0, 1, 1, 1, y + 1);
            assert_alu(x, y, 0, 0, 1, 1, 1, 0, x - 1);
            assert_alu(x, y, 1, 1, 0, 0, 1, 0, y - 1);
            assert_alu(x, y, 0, 0, 0, 0, 1, 0, x + y);
            assert_alu(x, y, 0, 1, 0, 0, 1, 1, x - y);
            assert_alu(x, y, 0, 0, 0, 1, 1, 1, y - x);
            assert_alu(x, y, 0, 0, 0, 0, 0, 0, x & y);
            assert_alu(x, y, 0, 1, 0, 1, 0, 1, x | y);
        }
    }
}

#[test]
fn test_nand() {
    assert_eq!(nand(false, false), true);
    assert_eq!(nand(true, false), true);
    assert_eq!(nand(false, true), true);
    assert_eq!(nand(true, true), false);
}

#[test]
fn test_not() {
    assert_eq!(not(true), false);
    assert_eq!(not(false), true);
}

#[test]
fn test_and() {
    assert_eq!(and(false, false), false);
    assert_eq!(and(true, false), false);
    assert_eq!(and(false, true), false);
    assert_eq!(and(true, true), true);
}

#[test]
fn test_or() {
    assert_eq!(or(false, false), false);
    assert_eq!(or(true, false), true);
    assert_eq!(or(false, true), true);
    assert_eq!(or(true, true), true);
}

#[test]
fn test_xor() {
    assert_eq!(xor(false, false), false);
    assert_eq!(xor(true, false), true);
    assert_eq!(xor(false, true), true);
    assert_eq!(xor(true, true), false);
}

#[test]
fn test_mux() {
    let bits = [false, true];
    for &sel in &bits {
        for &a in &bits {
            for &b in &bits {
                assert_eq!(mux(a, b, sel), if sel { b } else { a });
            }
        }
    }
}

#[test]
fn test_dmux() {
    let bits = [false, true];
    for &sel in &bits {
        for &x in &bits {
            assert_eq!(dmux(x, sel), if sel { [false, x] } else { [x, false] })
        }
    }
}

#[test]
fn test_or8way() {
    let bits = [false, true];
    for &a0 in &bits {
        for &a1 in &bits {
            for &a2 in &bits {
                for &a3 in &bits {
                    for &a4 in &bits {
                        for &a5 in &bits {
                            for &a6 in &bits {
                                for &a7 in &bits {
                                    assert_eq!(
                                        or8way([a0, a1, a2, a3, a4, a5, a6, a7]),
                                        a0 || a1 || a2 || a3 || a4 || a5 || a6 || a7
                                    );
                                }
                            }
                        }
                    }
                }
            }
        }
    }
}

#[test]
fn test_mux4way16() {
    let a = int2word(1);
    let b = int2word(2);
    let c = int2word(3);
    let d = int2word(4);
    for &sel0 in &[false, true] {
        for &sel1 in &[false, true] {
            let expected = match (sel0, sel1) {
                (false, false) => a,
                (true, false) => b,
                (false, true) => c,
                (true, true) => d,
            };
            assert_eq!(mux4way16(a, b, c, d, [sel0, sel1]), expected);
        }
    }
}

#[test]
fn test_mux8way16() {
    let a = int2word(1);
    let b = int2word(2);
    let c = int2word(3);
    let d = int2word(4);
    let e = int2word(5);
    let f = int2word(6);
    let g = int2word(7);
    let h = int2word(8);
    for &sel0 in &[false, true] {
        for &sel1 in &[false, true] {
            for &sel2 in &[false, true] {
                let expected = match (sel0, sel1, sel2) {
                    (false, false, false) => a,
                    (true, false, false) => b,
                    (false, true, false) => c,
                    (true, true, false) => d,
                    (false, false, true) => e,
                    (true, false, true) => f,
                    (false, true, true) => g,
                    (true, true, true) => h,
                };
                assert_eq!(mux8way16(a, b, c, d, e, f, g, h, [sel0, sel1, sel2]), expected);
            }
        }
    }
}

#[test]
fn test_dmux4way() {
    for &input in &[false, true] {
        for &sel0 in &[false, true] {
            for &sel1 in &[false, true] {
                let expected = match (sel0, sel1) {
                    (false, false) => [input, false, false, false],
                    (true, false) => [false, input, false, false],
                    (false, true) => [false, false, input, false],
                    (true, true) => [false, false, false, input],
                };
                assert_eq!(dmux4way(input, [sel0, sel1]), expected);
            }
        }
    }
}

#[test]
fn test_dmux8way() {
    for &input in &[false, true] {
        for &sel0 in &[false, true] {
            for &sel1 in &[false, true] {
                for &sel2 in &[false, true] {
                    let expected = match (sel0, sel1, sel2) {
                        (false, false, false) => [input, false, false, false, false, false, false, false],
                        (true, false, false) => [false, input, false, false, false, false, false, false],
                        (false, true, false) => [false, false, input, false, false, false, false, false],
                        (true, true, false) => [false, false, false, input, false, false, false, false],
                        (false, false, true) => [false, false, false, false, input, false, false, false],
                        (true, false, true) => [false, false, false, false, false, input, false, false],
                        (false, true, true) => [false, false, false, false, false, false, input, false],
                        (true, true, true) => [false, false, false, false, false, false, false, input],
                    };
                    assert_eq!(dmux8way(input, [sel0, sel1, sel2]), expected);
                }
            }
        }
    }
}

#[test]
fn test_half_adder() {
    assert_eq!(half_adder(false, false), [false, false]);
    assert_eq!(half_adder(true, false), [true, false]);
    assert_eq!(half_adder(false, true), [true, false]);
    assert_eq!(half_adder(true, true), [false, true]);
}

#[test]
fn test_full_adder() {
    assert_eq!(full_adder(false, false, false), [false, false]);
    assert_eq!(full_adder(true, false, false), [true, false]);
    assert_eq!(full_adder(false, true, false), [true, false]);
    assert_eq!(full_adder(true, true, false), [false, true]);

    assert_eq!(full_adder(false, false, true), [true, false]);
    assert_eq!(full_adder(true, false, true), [false, true]);
    assert_eq!(full_adder(false, true, true), [false, true]);
    assert_eq!(full_adder(true, true, true), [true, true]);
}

#[test]
fn test_add16() {
    assert_eq!(add16(int2word(0), int2word(0)), int2word(0));
    assert_eq!(add16(int2word(123), int2word(456)), int2word(579));
    let nums = [1, 2, 100, 3722, 2984, 25, 74];
    for &n in &nums {
        for &m in &nums {
            assert_eq!(add16(int2word(n), int2word(m)), int2word(n + m));
        }
    }
}

#[test]
fn test_inc16() {
    let nums = [1, 2, 100, 3722, 2984, 25, 74];
    for &n in &nums {
        assert_eq!(word2int(inc16(int2word(n))), n + 1);
    }
}
