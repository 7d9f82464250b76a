use aion_processor::parameters::filter::Filter;

#[test]
fn filter_submits_a_batch_at_each_passing_request() {
    let finalised = Filter::<(), u32>::submit_access(
        vec![1u32, 2, 3, 4, 5],
        |x: &u32| x % 2 == 0,
        |batch: Vec<u32>| Some(batch.into_iter().map(|x| x * 10).collect::<Vec<u32>>()),
    );
    // Batches [1, 2] and [3, 4]; the trailing 5 closes no batch.
    assert_eq!(finalised, vec![10, 20, 30, 40]);
}

#[test]
fn filter_drops_batches_whose_submission_fails() {
    let finalised = Filter::<(), u32>::submit_access(
        vec![1u32, 2, 3, 4, 6],
        |x: &u32| x % 2 == 0,
        |batch: Vec<u32>| {
            if batch.contains(&3) {
                None
            } else {
                Some(batch)
            }
        },
    );
    assert_eq!(finalised, vec![1, 2, 6]);
    let none = Filter::<(), u32>::submit_access(vec![1u32, 3], |x: &u32| x % 2 == 0, |batch: Vec<u32>| Some(batch));
    assert!(none.is_empty());
}

#[test]
fn filter_resolves_under_the_closing_index() {
    let filter = Filter::<(), u32>::resolve_access(
        vec![5u32, 8, 1, 2, 7],
        |x: &u32| x % 2 == 0,
        |batch: Vec<u32>| {
            let sum: u32 = batch.iter().sum();
            if sum == 3 {
                None
            } else {
                Some(sum)
            }
        },
    );
    assert_eq!(filter.resources.len(), 1);
    assert_eq!(filter.resources[&1], 13);
    assert!(!filter.resources.contains_key(&3));

    let every = Filter::<(), u32>::resolve_access(vec![2u32, 4], |_x: &u32| true, |batch: Vec<u32>| Some(batch[0]));
    assert_eq!(every.resources[&0], 2);
    assert_eq!(every.resources[&1], 4);
}

use aion_processor::parameters::primitives::{
    AccessRequest, AccessSubmissionError, ResolveResourceError, ResourceAccess, Shared, Unique,
};

fn request(details: u32, resource_id: Option<u64>) -> AccessRequest<u32> {
    AccessRequest { details, resource_id, resource_access: None }
}

fn described(r: AccessRequest<u32>) -> (u32, Option<u64>, Option<u64>) {
    let access = match r.resource_access {
        Some(ResourceAccess::Shared(n)) => Some(n),
        Some(ResourceAccess::Unique) => Some(0),
        None => None,
    };
    (r.details, r.resource_id, access)
}

#[test]
fn shared_submits_exactly_one_request() {
    let named = Shared::<u32>::submit_access(vec![request(4, Some(8))], 77, described);
    assert!(matches!(named, Ok(v) if v == vec![(4, Some(8), Some(1))]));
    let unnamed = Shared::<u32>::submit_access(vec![request(4, None)], 77, described);
    assert!(matches!(unnamed, Ok(v) if v == vec![(4, Some(77), Some(1))]));
    let many = Shared::<u32>::submit_access(vec![request(1, None), request(2, None)], 77, described);
    assert!(matches!(many, Err(AccessSubmissionError::TooManyPrompts)));
    let none = Shared::<u32>::submit_access(Vec::<AccessRequest<u32>>::new(), 77, described);
    assert!(matches!(none, Err(AccessSubmissionError::NotEnoughPrompts)));
}

#[test]
fn unique_resolves_exactly_one_result() {
    let mut unique = match Unique::<u32>::resolve_access(vec![7u32], |d: u32| Ok::<u32, ()>(d * 2)) {
        Ok(u) => u,
        Err(_) => panic!("one result resolves"),
    };
    assert_eq!(*unique.as_ref(), 14);
    *unique.as_mut() = 3;
    assert_eq!(*unique.as_ref(), 3);
    let failed = Unique::<u32>::resolve_access(vec![7u32], |_d: u32| Err::<u32, &str>("casting"));
    assert!(matches!(failed, Err(ResolveResourceError::Resolve("casting"))));
    let many = Shared::<u32>::resolve_access(vec![1u32, 2], |d: u32| Ok::<u32, ()>(d));
    assert!(matches!(many, Err(ResolveResourceError::TooManyResults)));
    let none = Unique::<u32>::resolve_access(Vec::<u32>::new(), |d: u32| Ok::<u32, ()>(d));
    assert!(matches!(none, Err(ResolveResourceError::NotEnoughResults)));
    let shared = Shared::<u32>::resolve_access(vec![9u32], |d: u32| Ok::<u32, ()>(d)).ok().unwrap();
    assert_eq!(*shared.as_ref(), 9);
}

#[test]
fn unique_submits_exactly_one_request() {
    let ok = Unique::<u32>::submit_access(vec![request(4, Some(8))], 77, described);
    assert!(matches!(ok, Ok(v) if v == vec![(4, Some(77), Some(0))]));
    let many = Unique::<u32>::submit_access(vec![request(1, None), request(2, None), request(3, None)], 77, described);
    assert!(matches!(many, Err(AccessSubmissionError::TooManyPrompts)));
}
