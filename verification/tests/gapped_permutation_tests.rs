use itertools::Itertools;
use limousine_core::GappedKVArray;

fn print_gapped_array(ga: &GappedKVArray<i32, i32>) {
    let mut line1 = String::new();
    let mut line2 = String::new();
    let mut line3 = String::new();
    for ix in 0..ga.len() {
        line1 += &format!("{}", if ga.bitmap[ix] { 1 } else { 0 });
        line2 += &format!("{}", ga.keys[ix]);
        line3 += &format!("{}", ga.vals[ix]);
    }
    println!("bitmap: {}", &line1);
    println!("keys: {}", &line2);
    println!("vals: {}", &line3);
}

fn get_all_possible_hints(size: usize, num_hints: usize) -> Vec<Vec<usize>> {
    if num_hints == 0 {
        return vec![];
    }
    if num_hints == 1 {
        return (0..size).into_iter().map(|val| vec![val]).collect();
    }
    let mut result: Vec<Vec<usize>> = vec![];
    for first_val in 0..size {
        let tails = get_all_possible_hints(size, num_hints - 1);
        for tail in tails {
            let mut new_thing = vec![first_val];
            new_thing.extend(tail.into_iter());
            result.push(new_thing);
        }
    }
    result
}

fn test_perm_with_hints(perm: &Vec<i32>, hints: &Vec<usize>) {
    let mut ga = GappedKVArray::<i32, i32>::new(perm.len());
    for (value, hint) in perm.iter().zip(hints.iter()) {
        assert!(ga.upsert_with_hint((value.clone(), value.clone()), hint.clone()).is_ok());
    }
    for ix in 0..ga.len() {
        let good = ga.bitmap[ix] && ga.keys[ix] == ix as i32;
        if !good {
            println!("Perm: {:?}", perm);
            println!("Hints: {:?}", hints);
            print_gapped_array(&ga);
        }
        assert!(good);
    }
}

#[test]
fn permutation_test() {
    const SIZE: usize = 6;
    let items: Vec<i32> = (0..SIZE).into_iter().map(|val| val as i32).collect();
    let perms: Vec<Vec<i32>> = items.into_iter().permutations(SIZE).collect();
    let hints = get_all_possible_hints(SIZE, SIZE);
    for perm in perms.iter() {
        for hints in hints.iter() {
            test_perm_with_hints(perm, hints);
        }
    }
}
