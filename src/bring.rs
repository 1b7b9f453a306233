//! Values exchanged with the remote shopping-list service.

use vstd::prelude::*;

verus! {

/// Credentials of the remote shopping-list service.
#[derive(Debug)]
pub struct Config {
    pub email: String,
    pub password: String,
}

/// An entry of a remote list: its name and free-text specification.
#[derive(Debug)]
pub struct GetItemsResponseEntry {
    pub specification: String,
    pub name: String,
}

/// The entries of a remote list, to buy and bought recently.
#[derive(Debug)]
pub struct GetItemsResponse {
    pub uuid: String,
    pub status: String,
    pub purchase: Vec<GetItemsResponseEntry>,
    pub recently: Vec<GetItemsResponseEntry>,
}

/// A remote list: its identity and display name.
#[derive(Debug)]
pub struct LoadListsEntry {
    pub list_uuid: String,
    pub name: String,
    pub theme: String,
}

/// All remote lists of the account.
#[derive(Debug)]
pub struct LoadListsResponse {
    pub lists: Vec<LoadListsEntry>,
}

/// An item of the service's catalog.
#[derive(Debug)]
pub struct CatalogItemsEntry {
    pub item_id: String,
    pub name: String,
}

/// A section of the service's catalog.
#[derive(Debug)]
pub struct CatalogSectionsEntry {
    pub section_id: String,
    pub name: String,
    pub items: Vec<CatalogItemsEntry>,
}

/// The service's catalog in one language.
#[derive(Debug)]
pub struct LoadCatalogResponse {
    pub language: String,
    pub catalog: CatalogSectionList,
}

/// The sections of a catalog.
#[derive(Debug)]
pub struct CatalogSectionList {
    pub sections: Vec<CatalogSectionsEntry>,
}

} // verus!
