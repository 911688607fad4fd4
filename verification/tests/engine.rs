use delta::myers;
use delta::replace::Replace;
use delta::sink::Diff;

#[test]
fn test_modulo() {
    assert_eq!(myers::modulo(-11, 10), 9);
    assert_eq!(myers::modulo(23, 7), 2);
    assert_eq!(myers::modulo(-12, 6), 0);
}

#[test]
fn test_diff() {
    let a: &[usize] = &[0, 1, 2, 3, 4];
    let b: &[usize] = &[0, 1, 2, 9, 4];
    struct D {}
    impl Diff for D {
        type Error = ();
        fn equal(&mut self, _o: usize, _n: usize, _len: usize) -> Result<(), ()> {
            Ok(())
        }
        fn delete(&mut self, o: usize, len: usize, new: usize) -> Result<(), ()> {
            assert_eq!(o, 3);
            assert_eq!(len, 1);
            assert_eq!(new, 3);
            println!("delete");
            Ok(())
        }
        fn insert(&mut self, o: usize, n: usize, len: usize) -> Result<(), ()> {
            assert_eq!(o, 3);
            assert_eq!(n, 3);
            assert_eq!(len, 1);
            println!("insert");
            Ok(())
        }
        fn replace(&mut self, o: usize, ol: usize, n: usize, nl: usize) -> Result<(), ()> {
            self.delete(o, ol, n)?;
            self.insert(o, n, nl)
        }
        fn finish(&mut self) -> Result<(), ()> {
            Ok(())
        }
    }
    let mut diff = Replace::new(D {});
    myers::diff(&mut diff, a, 0, a.len(), b, 0, b.len()).unwrap()
}

#[test]
fn test_contiguous() {
    let a: &[usize] = &[0, 1, 2, 3, 4, 4, 4, 5];
    let b: &[usize] = &[0, 1, 2, 8, 9, 4, 4, 7];
    struct D {}
    impl Diff for D {
        type Error = ();
        fn equal(&mut self, _o: usize, _n: usize, _len: usize) -> Result<(), ()> {
            Ok(())
        }
        fn delete(&mut self, _o: usize, _len: usize, _new: usize) -> Result<(), ()> {
            panic!("Should not delete")
        }
        fn insert(&mut self, _o: usize, _n: usize, _len: usize) -> Result<(), ()> {
            panic!("Should not insert")
        }
        fn replace(&mut self, o: usize, l: usize, n: usize, nl: usize) -> Result<(), ()> {
            assert!(o != 3 || (l == 2 && nl == 2));
            assert!(o != 7 || (l == 1 && nl == 1));
            println!("replace {:?} {:?} {:?} {:?}", o, l, n, nl);
            Ok(())
        }
        fn finish(&mut self) -> Result<(), ()> {
            Ok(())
        }
    }
    let mut diff = Replace::new(D {});
    myers::diff(&mut diff, a, 0, a.len(), b, 0, b.len()).unwrap();
}

#[test]
fn test_replace() {
    let a: &[usize] = &[0, 1, 2, 3, 4];
    let b: &[usize] = &[0, 1, 2, 7, 8, 9];
    struct D {}
    impl Diff for D {
        type Error = ();
        fn equal(&mut self, _o: usize, _n: usize, _len: usize) -> Result<(), ()> {
            Ok(())
        }
        fn delete(&mut self, _o: usize, _len: usize, _new: usize) -> Result<(), ()> {
            panic!("should not delete")
        }
        fn insert(&mut self, _o: usize, _n: usize, _len: usize) -> Result<(), ()> {
            panic!("should not insert")
        }
        fn replace(&mut self, _o: usize, _l: usize, _n: usize, _nl: usize) -> Result<(), ()> {
            Ok(())
        }
        fn finish(&mut self) -> Result<(), ()> {
            Ok(())
        }
    }
    let mut diff = Replace::new(D {});
    myers::diff(&mut diff, a, 0, a.len(), b, 0, b.len()).unwrap();
}

#[test]
fn myers() {
    let a: &[&str] = &[
        ">>>>>>>>>>>>>>>>>>>>>>>>>>>>>>>>\n",
        "a\n",
        "b\n",
        "c\n",
        "================================\n",
        "d\n",
        "e\n",
        "f\n",
        "<<<<<<<<<<<<<<<<<<<<<<<<<<<<<<<<\n",
    ];
    let b: &[&str] = &[
        ">>>>>>>>>>>>>>>>>>>>>>>>>>>>>>>>\n",
        "x\n",
        "b\n",
        "c\n",
        "================================\n",
        "y\n",
        "e\n",
        "f\n",
        "<<<<<<<<<<<<<<<<<<<<<<<<<<<<<<<<\n",
    ];

    struct D {}
    impl Diff for D {
        type Error = ();
        fn equal(&mut self, o: usize, n: usize, len: usize) -> Result<(), ()> {
            println!("equal {:?} {:?} {:?}", o, n, len);
            Ok(())
        }
        fn delete(&mut self, o: usize, len: usize, new: usize) -> Result<(), ()> {
            println!("delete {:?} {:?} {:?}", o, len, new);
            Ok(())
        }
        fn insert(&mut self, o: usize, n: usize, len: usize) -> Result<(), ()> {
            println!("insert {:?} {:?} {:?}", o, n, len);
            Ok(())
        }
        fn replace(&mut self, o: usize, l: usize, n: usize, nl: usize) -> Result<(), ()> {
            println!("replace {:?} {:?} {:?} {:?}", o, l, n, nl);
            Ok(())
        }
        fn finish(&mut self) -> Result<(), ()> {
            Ok(())
        }
    }
    let mut d = Replace::new(D {});
    myers::diff(&mut d, a, 0, a.len(), b, 0, b.len()).unwrap();
}

#[test]
fn test_text() {
    let aa = "Hallo dit is een leuk verhaal";
    let a: Vec<char> = aa.chars().collect();
    let bb = "Hallo is een ander verhaal";
    let b: Vec<char> = bb.chars().collect();
    println!("{:?}", a);
    println!("{:?}", b);

    pub struct D {
        pub aaa: String,
        pub bbb: String,
        pub otn: String, //old to new
        pub nto: String, //new to old
    }

    impl Diff for D {
        type Error = ();
        fn equal(&mut self, o: usize, new: usize, len: usize) -> Result<(), ()> {
            println!("equal {:?} {:?} {:?}", o, len, new);
            let piece: String = self.aaa.chars().skip(o).take(len).collect();
            self.otn.push_str(&piece);
            let piece: String = self.bbb.chars().skip(new).take(len).collect();
            self.nto.push_str(&piece);
            Ok(())
        }
        fn delete(&mut self, o: usize, len: usize, new: usize) -> Result<(), ()> {
            println!("delete {:?} {:?} {:?}", o, len, new);
            let piece: String = self.aaa.chars().skip(o).take(len).collect();
            self.nto.push_str(&piece);
            Ok(())
        }
        fn insert(&mut self, o: usize, n: usize, len: usize) -> Result<(), ()> {
            println!("insert {:?} {:?} {:?}", o, n, len);
            let piece: String = self.bbb.chars().skip(n).take(len).collect();
            self.otn.push_str(&piece);
            Ok(())
        }
        fn replace(&mut self, o: usize, ol: usize, n: usize, nl: usize) -> Result<(), ()> {
            self.delete(o, ol, n)?;
            self.insert(o, n, nl)
        }
        fn finish(&mut self) -> Result<(), ()> {
            Ok(())
        }
    }
    let ddd: D = D {
        aaa: aa.to_string(),
        bbb: bb.to_string(),
        otn: String::new(),
        nto: String::new(),
    };
    let mut diff = Replace::new(ddd);
    myers::diff(&mut diff, &a, 0, a.len(), &b, 0, b.len()).unwrap();
    let ddd = diff.into_inner();
    assert_eq!(ddd.otn, bb);
    assert_eq!(ddd.nto, aa);
}

#[test]
fn test_pat() {
    let a: &[usize] = &[0, 1, 3, 4, 5];
    let b: &[usize] = &[0, 1, 4, 5, 8, 9];
    struct D {}
    impl Diff for D {
        type Error = ();
        fn equal(&mut self, _o: usize, _len: usize, _new: usize) -> Result<(), ()> {
            println!("equal {:?} {:?} {:?}", _o, _len, _new);
            Ok(())
        }
        fn delete(&mut self, _o: usize, _len: usize, _new: usize) -> Result<(), ()> {
            println!("delete {:?} {:?} {:?}", _o, _len, _new);
            Ok(())
        }
        fn insert(&mut self, _o: usize, _n: usize, _len: usize) -> Result<(), ()> {
            println!("insert {:?} {:?} {:?}", _o, _n, _len);
            Ok(())
        }
        fn replace(&mut self, _o: usize, _l: usize, _n: usize, _nl: usize) -> Result<(), ()> {
            println!("replace {:?} {:?} {:?} {:?}", _o, _l, _n, _nl);
            Ok(())
        }
        fn finish(&mut self) -> Result<(), ()> {
            Ok(())
        }
    }
    let mut d = Replace::new(D {});
    myers::diff(&mut d, a, 0, a.len(), b, 0, b.len()).unwrap();
}
