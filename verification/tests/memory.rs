use hack::given::{int2word, word2int};
use hack::ram::{BitRegister, Register, RAM8, RAM64, RAM512, RAM16K, Counter};

#[test]
fn test_bit() {
    let mut bit = BitRegister::new();
    let inputs = [
        (false, false),
        (true, false),
        (true, false),
        (false, true),
        (true, true),
        (false, false),
        (false, true),
    ];
    let mut previous = bit.out();
    for &(input, load) in &inputs {
        bit.clock(input, load);
        assert_eq!(bit.out(), if load { input } else { previous });
        previous = bit.out();
    }
}

#[test]
fn test_register() {
    let mut register = Register::new();
    let inputs = [(139, false), (972, true), (742, true), (243, false), (64, false)];
    let mut previous = register.out();
    for &(input, load) in &inputs {
        register.clock(int2word(input), load);
        assert_eq!(word2int(register.out()), if load { input } else { word2int(previous) });
        previous = register.out();
    }
}

#[test]
#[allow(non_snake_case)]
fn test_RAM8() {
    let mut ram = RAM8::new();
    let values = [72, 45, 29, 836, 4582, 279];
    for &a0 in &[false, true] {
        for &a1 in &[false, true] {
            for &a2 in &[false, true] {
                let address = [a0, a1, a2];
                assert_eq!(word2int(ram.out(address)), 0);
                for &x in &values {
                    ram.clock(address, int2word(x), true);
                    assert_eq!(word2int(ram.out(address)), x);
                }
            }
        }
    }
}

#[test]
#[allow(non_snake_case)]
fn test_RAM64() {
    let mut ram = RAM64::new();
    let values = [72, 45, 29, 836, 4582, 279];
    for &a0 in &[false, true] {
        for &a1 in &[false, true] {
            for &a2 in &[false, true] {
                for &a3 in &[false, true] {
                    for &a4 in &[false, true] {
                        for &a5 in &[false, true] {
                            let address = [a0, a1, a2, a3, a4, a5];
                            assert_eq!(word2int(ram.out(address)), 0);
                            for &x in &values {
                                ram.clock(address, int2word(x), true);
                                assert_eq!(word2int(ram.out(address)), x);
                            }
                        }
                    }
                }
            }
        }
    }
}

#[test]
#[allow(non_snake_case)]
fn test_RAM512() {
    let mut ram = RAM512::new();
    let values = [72, 45, 29, 836, 4582, 279];
    for i in 0..9 {
        let mut address = [false; 9];
        address[i] = true;
        assert_eq!(word2int(ram.out(address)), 0);
        for &x in &values {
            ram.clock(address, int2word(x), true);
            assert_eq!(word2int(ram.out(address)), x);
        }
    }
}

#[test]
#[allow(non_snake_case)]
fn test_RAM16K() {
    let mut ram = RAM16K::new();
    let values = [72, 45, 29];
    for i in 9..14 {
        let mut address = [false; 14];
        address[i] = true;
        assert_eq!(word2int(ram.out(address)), 0);
        for &x in &values {
            ram.clock(address, int2word(x), true);
            assert_eq!(word2int(ram.out(address)), x);
        }
    }
}

#[test]
fn test_counter() {
    let mut counter = Counter::new();
    for i in 0..10 {
        assert_eq!(word2int(counter.out()), i);
        counter.clock(int2word(0), true, false, false);
    }
    assert_eq!(word2int(counter.out()), 10);

    counter.clock(int2word(0), false, false, true);
    assert_eq!(word2int(counter.out()), 0);

    counter.clock(int2word(123), false, true, false);
    assert_eq!(word2int(counter.out()), 123);
}
