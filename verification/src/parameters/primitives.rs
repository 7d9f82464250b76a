use vstd::prelude::*;

verus! {

/// Why the requests of a parameter could not be submitted.
pub enum AccessSubmissionError {
    TooManyPrompts,
    NotEnoughPrompts,
}

/// Why the results for a parameter could not be resolved: too many or too few
/// results, or the one result could not be turned into the resource.
pub enum ResolveResourceError<E> {
    TooManyResults,
    NotEnoughResults,
    Resolve(E),
}

/// How a parameter asks to use a resource: shared, with the number of sharers,
/// or unique.
pub enum ResourceAccess {
    Shared(u64),
    Unique,
}

/// A request that a parameter is prompted with: what else it says, the
/// resource it names, if any, and how it asks to use it, if it says so yet.
pub struct AccessRequest<A> {
    pub details: A,
    pub resource_id: Option<u64>,
    pub resource_access: Option<ResourceAccess>,
}

/// `request` made a shared request for one sharer, of the resource of the
/// parameter's type `type_resource` where it names none.
pub open spec fn shared_request<A>(request: AccessRequest<A>, type_resource: u64) -> AccessRequest<A> {
    AccessRequest {
        details: request.details,
        resource_id: match request.resource_id {
            Some(id) => Some(id),
            None => Some(type_resource),
        },
        resource_access: Some(ResourceAccess::Shared(1)),
    }
}

/// `request` made a unique request of the resource of the parameter's type
/// `type_resource`, whatever it named.
pub open spec fn unique_request<A>(request: AccessRequest<A>, type_resource: u64) -> AccessRequest<A> {
    AccessRequest {
        details: request.details,
        resource_id: Some(type_resource),
        resource_access: Some(ResourceAccess::Unique),
    }
}

/// The one request, or why there is not exactly one.
fn take_single<A>(prompted_accesses: Vec<A>) -> (r: Result<A, AccessSubmissionError>)
    ensures
        prompted_accesses@.len() > 1 ==> r matches Err(AccessSubmissionError::TooManyPrompts),
        prompted_accesses@.len() < 1 ==> r matches Err(AccessSubmissionError::NotEnoughPrompts),
        prompted_accesses@.len() == 1 ==> r == Ok::<A, AccessSubmissionError>(prompted_accesses@[0]),
{
    if prompted_accesses.len() > 1 {
        return Err(AccessSubmissionError::TooManyPrompts);
    } else if prompted_accesses.len() < 1 {
        return Err(AccessSubmissionError::NotEnoughPrompts);
    }
    let mut prompted_accesses = prompted_accesses;
    Ok(prompted_accesses.remove(0))
}

/// Exactly one result, resolved by `resolve`, or why there is not exactly one, or
/// why it could not be resolved.
fn resolve_single<D, R, E, Res: FnOnce(D) -> Result<R, E>>(derived_results: Vec<D>, resolve: Res) -> (r: Result<
    R,
    ResolveResourceError<E>,
>)
    requires
        derived_results@.len() == 1 ==> resolve.requires((derived_results@[0],)),
    ensures
        derived_results@.len() > 1 ==> r matches Err(ResolveResourceError::TooManyResults),
        derived_results@.len() < 1 ==> r matches Err(ResolveResourceError::NotEnoughResults),
        derived_results@.len() == 1 ==> exists|out: Result<R, E>|
            #[trigger] resolve.ensures((derived_results@[0],), out) && match out {
                Ok(resource) => r == Ok::<R, ResolveResourceError<E>>(resource),
                Err(e) => r == Err::<R, ResolveResourceError<E>>(ResolveResourceError::Resolve(e)),
            },
{
    if derived_results.len() > 1 {
        return Err(ResolveResourceError::TooManyResults);
    } else if derived_results.len() < 1 {
        return Err(ResolveResourceError::NotEnoughResults);
    }
    let mut derived_results = derived_results;
    let derived = derived_results.pop().unwrap();
    let out = resolve(derived);
    match out {
        Ok(resource) => Ok(resource),
        Err(e) => Err(ResolveResourceError::Resolve(e)),
    }
}

/// A resource that a system reads.
pub struct Shared<R> {
    resource: R,
}

impl<R> Shared<R> {
    /// The resource.
    pub closed spec fn resource(&self) -> R {
        self.resource
    }

    /// The resource, to read.
    pub fn as_ref(&self) -> (r: &R)
        ensures
            *r == self.resource(),
    {
        &self.resource
    }

    /// Submits the one request of a shared parameter: it is made a shared request
    /// for one sharer, of the resource of the parameter's type `type_resource`
    /// where it names none, and finalised by `finalise`. More or fewer than one
    /// request is refused.
    pub fn submit_access<A, F, Fin: FnOnce(AccessRequest<A>) -> F>(
        prompted_accesses: Vec<AccessRequest<A>>,
        type_resource: u64,
        finalise: Fin,
    ) -> (r: Result<Vec<F>, AccessSubmissionError>)
        requires
            prompted_accesses@.len() == 1 ==> finalise.requires(
                (shared_request(prompted_accesses@[0], type_resource),),
            ),
        ensures
            prompted_accesses@.len() > 1 ==> r matches Err(AccessSubmissionError::TooManyPrompts),
            prompted_accesses@.len() < 1 ==> r matches Err(AccessSubmissionError::NotEnoughPrompts),
            prompted_accesses@.len() == 1 ==> (r matches Ok(v) && v@.len() == 1 && finalise.ensures(
                (shared_request(prompted_accesses@[0], type_resource),),
                v@[0],
            )),
    {
        let ghost prompted = prompted_accesses@;
        let request = match take_single(prompted_accesses) {
            Ok(request) => request,
            Err(e) => return Err(e),
        };
        let resource_id = match request.resource_id {
            Some(id) => Some(id),
            None => Some(type_resource),
        };
        let shared = AccessRequest {
            details: request.details,
            resource_id,
            resource_access: Some(ResourceAccess::Shared(1)),
        };
        proof {
            assert(shared == shared_request(prompted[0], type_resource));
        }
        let mut out: Vec<F> = Vec::new();
        out.push(finalise(shared));
        Ok(out)
    }

    /// Resolves the one result of a shared parameter with `resolve`; more or fewer
    /// than one result is refused.
    pub fn resolve_access<D, E, Res: FnOnce(D) -> Result<R, E>>(derived_results: Vec<D>, resolve: Res) -> (r:
        Result<Self, ResolveResourceError<E>>)
        requires
            derived_results@.len() == 1 ==> resolve.requires((derived_results@[0],)),
        ensures
            derived_results@.len() > 1 ==> r matches Err(ResolveResourceError::TooManyResults),
            derived_results@.len() < 1 ==> r matches Err(ResolveResourceError::NotEnoughResults),
            derived_results@.len() == 1 ==> exists|out: Result<R, E>|
                #[trigger] resolve.ensures((derived_results@[0],), out) && match out {
                    Ok(resource) => (r matches Ok(s) && s.resource() == resource),
                    Err(e) => (r matches Err(ResolveResourceError::Resolve(e2)) && e2 == e),
                },
    {
        match resolve_single(derived_results, resolve) {
            Ok(resource) => Ok(Shared { resource }),
            Err(e) => Err(e),
        }
    }
}

/// A resource that a system holds alone, to read and change.
pub struct Unique<R> {
    resource: R,
}

impl<R> Unique<R> {
    /// The resource.
    pub closed spec fn resource(&self) -> R {
        self.resource
    }

    /// The resource, to read.
    pub fn as_ref(&self) -> (r: &R)
        ensures
            *r == self.resource(),
    {
        &self.resource
    }

    /// The resource, to change.
    pub fn as_mut(&mut self) -> (r: &mut R)
        ensures
            *r == old(self).resource(),
            final(self).resource() == *final(r),
    {
        &mut self.resource
    }

    /// Submits the one request of a unique parameter: it is made a unique request
    /// of the resource of the parameter's type `type_resource`, whatever it
    /// named, and finalised by `finalise`. More or fewer than one
    /// request is refused.
    pub fn submit_access<A, F, Fin: FnOnce(AccessRequest<A>) -> F>(
        prompted_accesses: Vec<AccessRequest<A>>,
        type_resource: u64,
        finalise: Fin,
    ) -> (r: Result<Vec<F>, AccessSubmissionError>)
        requires
            prompted_accesses@.len() == 1 ==> finalise.requires(
                (unique_request(prompted_accesses@[0], type_resource),),
            ),
        ensures
            prompted_accesses@.len() > 1 ==> r matches Err(AccessSubmissionError::TooManyPrompts),
            prompted_accesses@.len() < 1 ==> r matches Err(AccessSubmissionError::NotEnoughPrompts),
            prompted_accesses@.len() == 1 ==> (r matches Ok(v) && v@.len() == 1 && finalise.ensures(
                (unique_request(prompted_accesses@[0], type_resource),),
                v@[0],
            )),
    {
        let ghost prompted = prompted_accesses@;
        let request = match take_single(prompted_accesses) {
            Ok(request) => request,
            Err(e) => return Err(e),
        };
        let unique = AccessRequest {
            details: request.details,
            resource_id: Some(type_resource),
            resource_access: Some(ResourceAccess::Unique),
        };
        proof {
            assert(unique == unique_request(prompted[0], type_resource));
        }
        let mut out: Vec<F> = Vec::new();
        out.push(finalise(unique));
        Ok(out)
    }

    /// Resolves the one result of a unique parameter with `resolve`; more or fewer
    /// than one result is refused.
    pub fn resolve_access<D, E, Res: FnOnce(D) -> Result<R, E>>(derived_results: Vec<D>, resolve: Res) -> (r:
        Result<Self, ResolveResourceError<E>>)
        requires
            derived_results@.len() == 1 ==> resolve.requires((derived_results@[0],)),
        ensures
            derived_results@.len() > 1 ==> r matches Err(ResolveResourceError::TooManyResults),
            derived_results@.len() < 1 ==> r matches Err(ResolveResourceError::NotEnoughResults),
            derived_results@.len() == 1 ==> exists|out: Result<R, E>|
                #[trigger] resolve.ensures((derived_results@[0],), out) && match out {
                    Ok(resource) => (r matches Ok(u) && u.resource() == resource),
                    Err(e) => (r matches Err(ResolveResourceError::Resolve(e2)) && e2 == e),
                },
    {
        match resolve_single(derived_results, resolve) {
            Ok(resource) => Ok(Unique { resource }),
            Err(e) => Err(e),
        }
    }
}

} // verus!
