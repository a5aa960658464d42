//! Key-schedule behavior tests.

use shiftcrack::schedulers::{
    Aab, InvertZip, KeySchedule, LengthMod, NextKey, OffsetReverse, PeriodicRand,
};

#[test]
fn repetition() {
    let key = b"ABCdefg";
    let effective_key = b"ABCABCdefg";
    let aab = Aab { num_chars: 3, num_reps: 1, offset: 0 };

    let mut index = 0;
    for _ in 0..500 {
        for expected in 0..effective_key.len() {
            let computed = aab.schedule(index, key.len(), 1000).index_or_panic();
            assert_eq!(effective_key[expected], key[computed]);
            index += 1;
        }
    }
}

#[test]
fn double_repetition() {
    let key = b"ABCdefg";
    let effective_key = b"ABCABCABCdefg";
    let aab = Aab { num_chars: 3, num_reps: 2, offset: 0 };

    let mut index = 0;
    for _ in 0..500 {
        for expected in 0..effective_key.len() {
            let computed = aab.schedule(index, key.len(), 1000).index_or_panic();
            assert_eq!(effective_key[expected], key[computed]);
            index += 1;
        }
    }
}

#[test]
fn offset() {
    let key = b"aBCDefg";
    let effective_key = b"aBCDBCDBCDefg";
    let aab = Aab { num_chars: 3, num_reps: 2, offset: 1 };

    let mut index = 0;
    for _ in 0..500 {
        for expected in 0..effective_key.len() {
            let computed = aab.schedule(index, key.len(), 1000).index_or_panic();
            assert_eq!(effective_key[expected], key[computed]);
            index += 1;
        }
    }
}

#[test]
#[allow(non_snake_case)]
fn invertZip_simple() {
    let key = b"ABCDEF";
    let effective_key = b"ABCDEF";
    let invertzip = InvertZip { offset: 0 };

    let mut index = 0;
    println!("key len is {}", key.len());
    println!("effective key len is {}", effective_key.len());
    for _ in 0..500 {
        for expected in 0..effective_key.len() {
            let computed = invertzip.schedule(index, key.len(), 1000).index_or_panic();
            assert_eq!(effective_key[expected], key[computed]);
            index += 1;
        }
    }
}

#[test]
#[allow(non_snake_case)]
fn invertZip_with_offset() {
    let key = b"ABCDEF";
    let effective_key = b"FEDABCDEF";
    let invertzip = InvertZip { offset: 3 };

    let mut index = 0;
    println!("key len is {}", key.len());
    println!("effective key len is {}", effective_key.len());
    for _ in 0..500 {
        for expected in 0..effective_key.len() {
            let computed = invertzip.schedule(index, key.len(), 1000).index_or_panic();
            assert_eq!(effective_key[expected], key[computed]);
            index += 1;
        }
    }
}

#[test]
fn first() {
    let sched = LengthMod {};
    let res = sched.schedule(12, 50, 500).index_or_panic();
    assert_eq!(res, 0);
}

#[test]
fn second() {
    let sched = LengthMod {};
    let res = sched.schedule(1, 50, 501).index_or_panic();
    assert_eq!(res, 1);
}

#[test]
fn offsetreverse_simple() {
    let key = b"ABCDEF";
    let effective_key = b"ABCDEF";
    let offsetreverse = OffsetReverse { offset: 0 };

    let mut index = 0;
    println!("key len is {}", key.len());
    println!("effective key len is {}", effective_key.len());
    for _ in 0..500 {
        for expected in 0..effective_key.len() {
            let computed = offsetreverse.schedule(index, key.len(), 1000).index_or_panic();
            assert_eq!(effective_key[expected], key[computed]);
            index += 1;
        }
    }
}

#[test]
fn offsetreverse_with_offset() {
    let key = b"ABCDEF";
    let effective_key = b"FEDABCDEF";
    let offsetreverse = OffsetReverse { offset: 3 };

    let mut index = 0;
    println!("key len is {}", key.len());
    println!("effective key len is {}", effective_key.len());
    for _ in 0..500 {
        for expected in 0..effective_key.len() {
            let computed = offsetreverse.schedule(index, key.len(), 1000).index_or_panic();
            assert_eq!(effective_key[expected], key[computed]);
            index += 1;
        }
    }
}

#[test]
fn full_reverse() {
    let key = b"ABCDEFGHIJKLMNOPQRSTUVWXYZ";
    let effective_key = b"ZYXWVUTSRQPONMLKJIHGFEDCBAABCDEFGHIJKLMNOPQRSTUVWXYZ";
    let offsetreverse = OffsetReverse { offset: 26 };

    let mut index = 0;
    println!("key len is {}", key.len());
    println!("effective key len is {}", effective_key.len());
    for _ in 0..500 {
        for expected in 0..effective_key.len() {
            let computed = offsetreverse.schedule(index, key.len(), 1000).index_or_panic();
            println!("computed  {}", key[computed] as char);
            println!("should be {}", effective_key[expected] as char);
            assert_eq!(effective_key[expected], key[computed]);
            index += 1;
        }
    }
}

#[test]
fn periodic() {
    let key = b"ABCDEFG";
    let sched = PeriodicRand { period: 4, start: 1, overwrite: false };

    let effective_key_indices = [NextKey::KeyIndex(0), NextKey::Rand,
       NextKey::KeyIndex(1), NextKey::KeyIndex(2), NextKey::KeyIndex(3), NextKey::Rand,
       NextKey::KeyIndex(4), NextKey::KeyIndex(5), NextKey::KeyIndex(6), NextKey::Rand,
       NextKey::KeyIndex(0), NextKey::KeyIndex(1), NextKey::KeyIndex(2), NextKey::Rand,
       NextKey::KeyIndex(3), NextKey::KeyIndex(4), NextKey::KeyIndex(5), NextKey::Rand,
       NextKey::KeyIndex(6), NextKey::KeyIndex(0), NextKey::KeyIndex(1), NextKey::Rand,
       NextKey::KeyIndex(2), NextKey::KeyIndex(3), NextKey::KeyIndex(4), NextKey::Rand,
       NextKey::KeyIndex(5), NextKey::KeyIndex(6)];

    let mut index = 0;
    for _ in 0..500 {
        for expected in 0..effective_key_indices.len() {
            let computed = sched.schedule(index, key.len(), 1000);
            assert_eq!(effective_key_indices[expected], computed);
            if let NextKey::KeyIndex(computed) = computed {
                assert_eq!(key[effective_key_indices[expected].index_or_panic()], key[computed]);
            }
            index += 1;
        }
    }
}

#[test]
fn chained_with_aab() {
    let key = b"aBCDefg";
    let effective_key = b"aBCD_\
                        BCDBCD_\
                        efgaBC_\
                        DBCDBC_\
                        DefgaB_\
                        CDBCDB_\
                        CDefga_\
                        BCDBCD_\
                        BCDefg_\
                        aBCDBC_\
                        DBCDef_\
                        gaBCDB_\
                        CDBCDe_\
                        fg";
    let aab = Aab { num_chars: 3, num_reps: 2, offset: 1 };

    let rand = PeriodicRand { period: 7, start: 4, overwrite: false };

    let sched = (&rand, &aab);

    let mut index = 0;
    for _ in 0..500 {
        for expected in 0..effective_key.len() {
            let computed = sched.schedule(index, key.len(), 1000);
            if let NextKey::KeyIndex(index) = computed {
                assert_eq!(effective_key[expected], key[index]);
            } else {
                assert_eq!(effective_key[expected], b'_');
            }
            index += 1;
        }
    }
}
